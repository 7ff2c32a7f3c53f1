use rainsim::fixed::{sat_add, sat_mul_scaled};
use rainsim::{rain_to_string, V2};

#[test]
fn vector_renders_with_two_decimals() {
    assert_eq!(V2::new(500, 500).to_display(), "(0.50, 0.50)");
    assert_eq!(V2::new(0, 0).to_display(), "(0.00, 0.00)");
    assert_eq!(V2::new(100000, 10000).to_display(), "(100.00, 10.00)");
    assert_eq!(V2::new(-1234567, 50).to_display(), "(-1234.56, 0.05)");
}

#[test]
fn rain_renders_each_drop_followed_by_a_space() {
    let rain = vec![V2::new(500, 500), V2::new(1000, 2000)];
    assert_eq!(rain_to_string(&rain), "(0.50, 0.50) (1.00, 2.00) ");
    assert_eq!(rain_to_string(&Vec::new()), "");
}

#[test]
fn fixed_point_sums_saturate() {
    assert_eq!(sat_add(1500, 250), 1750);
    assert_eq!(sat_add(i64::MAX, 1), i64::MAX);
    assert_eq!(sat_add(i64::MIN, -1), i64::MIN);
}

#[test]
fn fixed_point_products_scale_and_truncate() {
    // 1.5 * -2.0 = -3.0
    assert_eq!(sat_mul_scaled(1500, -2000), -3000);
    // 0.001 * 0.1 truncates to zero.
    assert_eq!(sat_mul_scaled(1, 100), 0);
    // -0.0015 * 1.0 truncates toward zero.
    assert_eq!(sat_mul_scaled(-1500, 1), -1);
    assert_eq!(sat_mul_scaled(i64::MAX, 2000), i64::MAX);
    assert_eq!(sat_mul_scaled(i64::MAX, -2000), i64::MIN);
}
