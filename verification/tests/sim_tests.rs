use rainsim::sim::spawn_count;
use rainsim::{Simulation, SimulationParameters, V2};

fn still_params() -> SimulationParameters {
    SimulationParameters {
        object_size: V2::new(1000, 1000),
        object_speed: 0,
        scene_size: V2::new(10000, 10000),
        rain_speed: V2::new(0, 0),
        rain_density: 0,
    }
}

#[test]
fn new_simulation_starts_at_origin() {
    let sim = Simulation::new(still_params());
    assert_eq!(sim.object_position, V2::new(0, 0));
    assert_eq!(sim.rain.len(), 0);
    assert_eq!(sim.score, 0);
}

#[test]
fn object_crosses_scene_in_ten_steps() {
    // Scene 10x10, object 1x1 moving at 1 unit/s, no rain; dt = 1.0.
    let mut params = still_params();
    params.object_speed = 1000;
    let mut sim = Simulation::new(params);
    assert!(!sim.update(1000));
    assert_eq!(sim.object_position.x, 1000);
    for step in 2i64..=9 {
        assert!(!sim.update(1000));
        assert_eq!(sim.object_position.x, step * 1000);
    }
    // Tenth step: x reaches 10.0 and 10.0 + 1.0 > 10.0.
    assert!(sim.update(1000));
    assert_eq!(sim.object_position.x, 10000);
    assert_eq!(sim.score, 0);
}

#[test]
fn raindrop_inside_object_scores_once() {
    // A single raindrop strictly inside the still object is scored and
    // removed.
    let mut sim = Simulation::new(still_params());
    sim.rain.push(V2::new(500, 500));
    let over = sim.update(100);
    assert!(!over);
    assert_eq!(sim.score, 1);
    assert_eq!(sim.rain.len(), 0);
}

#[test]
fn collisions_are_reported_in_order() {
    let mut sim = Simulation::new(still_params());
    sim.rain.push(V2::new(500, 500));
    sim.rain.push(V2::new(2000, 2000));
    sim.rain.push(V2::new(900, 900));
    let (over, collided) = sim.update_with_collisions(100);
    assert!(!over);
    assert_eq!(collided, vec![V2::new(500, 500), V2::new(900, 900)]);
    assert_eq!(sim.rain, vec![V2::new(2000, 2000)]);
    assert_eq!(sim.score, 2);
}

#[test]
fn raindrop_on_boundary_is_not_scored() {
    // Touching any edge of the object does not count: strict inequalities
    // on all four bounds.
    let mut sim = Simulation::new(still_params());
    sim.rain.push(V2::new(1000, 500)); // right edge
    sim.rain.push(V2::new(500, 1000)); // top edge
    sim.rain.push(V2::new(0, 500)); // left edge would need x > 0 anyway
    let over = sim.update(100);
    assert!(!over);
    assert_eq!(sim.score, 0);
    // The drop at x == 0 fails the cull's x > 0 test; the other two stay.
    assert_eq!(sim.rain, vec![V2::new(1000, 500), V2::new(500, 1000)]);
}

#[test]
fn advection_moves_each_raindrop_by_speed_times_dt() {
    let mut params = still_params();
    params.rain_speed = V2::new(500, -1000);
    let mut sim = Simulation::new(params);
    sim.rain.push(V2::new(4000, 5000));
    // dt = 0.1: the drop moves by (0.05, -0.1).
    let over = sim.update(100);
    assert!(!over);
    assert_eq!(sim.rain, vec![V2::new(4050, 4900)]);
    assert_eq!(sim.score, 0);
}

#[test]
fn out_of_scene_raindrops_are_culled() {
    let mut params = still_params();
    params.rain_speed = V2::new(0, -1000);
    let mut sim = Simulation::new(params);
    sim.rain.push(V2::new(500, 50)); // falls below the floor
    sim.rain.push(V2::new(10500, 5000)); // beyond the scene's width
    sim.rain.push(V2::new(5000, 5000)); // stays
    let over = sim.update(100);
    assert!(!over);
    assert_eq!(sim.rain, vec![V2::new(5000, 4900)]);
}

#[test]
fn spawn_count_follows_density_formula() {
    // density 1.0 * dt 0.1 * width 100.0 = 10 raindrops.
    assert_eq!(spawn_count(1000, 100, 100000), 10);
    // Truncation toward zero: 0.9 expected raindrops spawn none.
    assert_eq!(spawn_count(1000, 100, 9000), 0);
    // Degenerate inputs clamp to zero.
    assert_eq!(spawn_count(-1000, 100, 100000), 0);
    assert_eq!(spawn_count(1000, 0, 100000), 0);
    assert_eq!(spawn_count(1000, 100, -100000), 0);
}

#[test]
fn spawned_raindrops_sit_on_the_top_edge() {
    let params = SimulationParameters {
        object_size: V2::new(1000, 1000),
        object_speed: 0,
        scene_size: V2::new(100000, 10000),
        rain_speed: V2::new(0, 0),
        rain_density: 1000,
    };
    let mut sim = Simulation::new(params);
    let over = sim.update(100);
    assert!(!over);
    assert_eq!(sim.rain.len(), 10);
    for drop in &sim.rain {
        assert_eq!(drop.y, 10000);
        assert!(0 <= drop.x && drop.x < 100000);
    }
    assert_eq!(sim.score, 0);
}

#[test]
fn score_never_decreases() {
    let mut sim = Simulation::new(still_params());
    sim.rain.push(V2::new(500, 500));
    let mut last = sim.score;
    for _ in 0..5 {
        sim.update(100);
        assert!(sim.score >= last);
        last = sim.score;
    }
    assert_eq!(sim.score, 1);
}

#[test]
fn termination_is_exact_on_the_trailing_edge() {
    // With the object's trailing edge exactly on the scene's width the run
    // is not over; one more step ends it.
    let mut params = still_params();
    params.object_speed = 9000;
    let mut sim = Simulation::new(params);
    // x becomes 9.0; 9.0 + 1.0 = 10.0 is not > 10.0.
    assert!(!sim.update(1000));
    assert_eq!(sim.object_position.x, 9000);
    assert!(sim.update(1000));
}

#[test]
fn update_reports_all_state_on_terminating_step() {
    // The terminating step still advects, culls, spawns and scores.
    let mut params = still_params();
    params.object_speed = 20000;
    let mut sim = Simulation::new(params);
    sim.rain.push(V2::new(20500, 500));
    let over = sim.update(1000);
    assert!(over);
    assert_eq!(sim.object_position.x, 20000);
    // The drop at x = 20.5 was culled (beyond the scene) before collision.
    assert_eq!(sim.rain.len(), 0);
    assert_eq!(sim.score, 0);
}
