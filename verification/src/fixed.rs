//! Fixed-point scalar arithmetic.
//!
//! Every scalar of the simulation (coordinates, speeds, densities, time
//! steps) is an `i64` holding the quantity times [`SCALE`], so `1500` stands
//! for `1.5` units. Sums and scaled products saturate at the `i64` range, so
//! every operation is total.

use vstd::prelude::*;

verus! {

/// Number of fixed-point units in one simulation unit.
pub const SCALE: i64 = 1000;

/// Clamp a mathematical integer into the `i64` range.
pub open spec fn clip_i64(v: int) -> i64 {
    if v > i64::MAX as int {
        i64::MAX
    } else if v < i64::MIN as int {
        i64::MIN
    } else {
        v as i64
    }
}

/// Division truncating toward zero, for a positive divisor.
pub open spec fn tdiv(a: int, b: int) -> int {
    if a >= 0 {
        a / b
    } else {
        -((-a) / b)
    }
}

/// Absolute value of a mathematical integer.
pub open spec fn abs_int(v: int) -> int {
    if v >= 0 {
        v
    } else {
        -v
    }
}

/// Saturating fixed-point sum.
pub open spec fn fx_add(a: i64, b: i64) -> i64 {
    clip_i64(a as int + b as int)
}

/// Saturating fixed-point product: `a` and `b` are both scaled by [`SCALE`],
/// so their mathematical product carries the scale twice and one factor of
/// [`SCALE`] is divided back out, truncating toward zero.
pub open spec fn fx_mul(a: i64, b: i64) -> i64 {
    clip_i64(tdiv(a as int * b as int, SCALE as int))
}

/// Saturating sum of a score and a collision count.
pub open spec fn score_plus(s: u32, n: int) -> u32 {
    if s as int + n > u32::MAX as int {
        u32::MAX
    } else if s as int + n < 0 {
        0
    } else {
        (s as int + n) as u32
    }
}

/// Saturating `i64` addition.
pub fn sat_add(a: i64, b: i64) -> (r: i64)
    ensures
        r == fx_add(a, b),
{
    let s: i128 = a as i128 + b as i128;
    if s > i64::MAX as i128 {
        i64::MAX
    } else if s < i64::MIN as i128 {
        i64::MIN
    } else {
        s as i64
    }
}

/// Magnitude of an `i64`, exact also at `i64::MIN`.
pub fn abs_u64(v: i64) -> (r: u64)
    ensures
        r as int == abs_int(v as int),
{
    if v >= 0 {
        v as u64
    } else {
        let w: i128 = -(v as i128);
        w as u64
    }
}

/// Saturating fixed-point multiplication, truncating toward zero.
pub fn sat_mul_scaled(a: i64, b: i64) -> (r: i64)
    ensures
        r == fx_mul(a, b),
{
    let neg: bool = (a < 0) != (b < 0);
    let aa: u64 = abs_u64(a);
    let bb: u64 = abs_u64(b);
    let ghost x: int = (a as int) * (b as int);
    proof {
        assert((aa as int) * (bb as int) == abs_int(x)
            && (aa as int) * (bb as int) <= 0x8000000000000000 * 0x8000000000000000) by (nonlinear_arith)
            requires
                x == (a as int) * (b as int),
                aa as int == abs_int(a as int),
                bb as int == abs_int(b as int),
                abs_int(a as int) <= 0x8000000000000000,
                abs_int(b as int) <= 0x8000000000000000;
    }
    let p: u128 = (aa as u128) * (bb as u128);
    let q: u128 = p / (SCALE as u128);
    proof {
        assert(q as int == abs_int(tdiv(x, SCALE as int)));
    }
    if q == 0 {
        proof {
            assert(tdiv(x, SCALE as int) == 0);
        }
        0
    } else {
        proof {
            assert(x != 0);
            if neg {
                assert(x < 0) by (nonlinear_arith)
                    requires
                        x == (a as int) * (b as int),
                        x != 0,
                        ((a as int) < 0) != ((b as int) < 0);
            } else {
                assert(x > 0) by (nonlinear_arith)
                    requires
                        x == (a as int) * (b as int),
                        x != 0,
                        ((a as int) < 0) == ((b as int) < 0);
            }
        }
        if neg {
            if q >= 9223372036854775808u128 {
                i64::MIN
            } else {
                -(q as i64)
            }
        } else {
            if q > i64::MAX as u128 {
                i64::MAX
            } else {
                q as i64
            }
        }
    }
}

/// Saturating score increase.
pub fn score_add(s: u32, n: usize) -> (r: u32)
    ensures
        r == score_plus(s, n as int),
{
    let t: u128 = s as u128 + n as u128;
    if t > u32::MAX as u128 {
        u32::MAX
    } else {
        t as u32
    }
}

} // verus!
