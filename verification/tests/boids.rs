use boids::boid::{shape_points, Boid, SIZE_X, SIZE_Y};
use boids::math::{
    smallest_angle_between, Mean, Vec2, WeightedMean, HALF_PI_FP, PI_FP, SCALE, TAU_FP,
};
use boids::settings::Settings;
use boids::simulation::Simulation;

fn quiet_settings() -> Settings {
    // No steering, no boundary turning: agents keep their velocity.
    Settings {
        boids: 2,
        visible_range: 50 * SCALE,
        min_distance: 5 * SCALE,
        max_speed: 100 * SCALE,
        cohesion_factor: 0,
        separation_factor: 0,
        alignment_factor: 0,
        turn_speed_ratio: 0,
        border_margin: 0,
        color_adapt_factor: 0,
    }
}

fn boid_at(x: i64, y: i64, vx: i64, vy: i64) -> Boid {
    Boid {
        position: Vec2 { x, y },
        velocity: Vec2 { x: vx, y: vy },
        radius: SCALE,
        hue: 0,
    }
}

#[test]
fn angle_between_same_angle_is_zero() {
    assert_eq!(smallest_angle_between(123456, 123456), 0);
    assert_eq!(smallest_angle_between(-987, -987), 0);
}

#[test]
fn angle_between_full_turn_is_zero() {
    assert_eq!(smallest_angle_between(0, TAU_FP), 0);
    assert_eq!(smallest_angle_between(100, 100 + TAU_FP), 0);
}

#[test]
fn angle_between_stays_in_half_turn_range() {
    let samples = [
        (0i64, 0i64),
        (0, PI_FP),
        (PI_FP, 0),
        (0, -PI_FP),
        (3 * TAU_FP, -5 * TAU_FP + 17),
        (-TAU_FP, HALF_PI_FP),
    ];
    for (a, b) in samples {
        let d = smallest_angle_between(a, b);
        assert!(-PI_FP <= d && d < PI_FP, "delta {d} out of range");
    }
    // A half-turn target wraps to the negative end of the range.
    assert_eq!(smallest_angle_between(0, PI_FP), -PI_FP);
    // A quarter turn stays a quarter turn.
    assert_eq!(smallest_angle_between(0, HALF_PI_FP), HALF_PI_FP);
}

#[test]
fn mean_of_nothing_is_absent() {
    let empty: Vec<i64> = Vec::new();
    assert_eq!(i64::mean(&empty), None);
    let empty_v: Vec<Vec2> = Vec::new();
    assert_eq!(Vec2::mean(&empty_v), None);
}

#[test]
fn mean_of_one_item_is_that_item() {
    assert_eq!(i64::mean(&vec![42]), Some(42));
    assert_eq!(i64::mean(&vec![-7]), Some(-7));
    let v = Vec2 { x: 3, y: -9 };
    assert_eq!(Vec2::mean(&vec![v]), Some(v));
}

#[test]
fn mean_exact_value() {
    assert_eq!(i64::mean(&vec![2, 4, 6]), Some(4));
    assert_eq!(
        Vec2::mean(&vec![Vec2 { x: 10, y: 0 }, Vec2 { x: 20, y: 8 }]),
        Some(Vec2 { x: 15, y: 4 })
    );
}

#[test]
fn weighted_mean_of_nothing_or_zero_weight_is_absent() {
    let empty: Vec<(i64, i64)> = Vec::new();
    assert_eq!(i64::weighted_mean(&empty), None);
    assert_eq!(i64::weighted_mean(&vec![(5, 0), (9, 0)]), None);
}

#[test]
fn weighted_mean_of_one_item_ignores_its_weight() {
    assert_eq!(i64::weighted_mean(&vec![(5, 3)]), Some(5));
    assert_eq!(i64::weighted_mean(&vec![(5, 7777)]), Some(5));
}

#[test]
fn weighted_mean_of_two_equal_values_is_that_value() {
    assert_eq!(i64::weighted_mean(&vec![(9, 1), (9, 100)]), Some(9));
    let v = Vec2 { x: -4, y: 11 };
    assert_eq!(Vec2::weighted_mean(&vec![(v, 13), (v, 5)]), Some(v));
}

#[test]
fn weighted_mean_exact_value() {
    // (10 * 1 + 20 * 3) / 4 = 17, with exact integer products.
    assert_eq!(i64::weighted_mean(&vec![(10, 1), (20, 3)]), Some(17));
}

#[test]
fn magnitude_is_exact_on_pythagorean_triples() {
    assert_eq!(Vec2 { x: 3, y: 4 }.magnitude(), 5);
    assert_eq!(Vec2 { x: -3000000, y: 4000000 }.magnitude(), 5000000);
}

#[test]
fn clamp_magnitude_leaves_slow_vectors_unchanged() {
    let v = Vec2 { x: 3 * SCALE, y: 4 * SCALE };
    assert_eq!(v.clamp_magnitude(5 * SCALE), v);
    assert_eq!(v.clamp_magnitude(6 * SCALE), v);
}

#[test]
fn clamp_magnitude_scales_fast_vectors_to_the_limit() {
    let v = Vec2 { x: 3 * SCALE, y: 4 * SCALE };
    let c = v.clamp_magnitude(SCALE);
    // 3-4-5 scales exactly: direction kept, magnitude exactly the limit.
    assert_eq!(c, Vec2 { x: 600000, y: 800000 });
    assert_eq!(c.magnitude(), SCALE);
}

#[test]
fn from_polar_on_the_axes_is_exact() {
    assert_eq!(Vec2::from_polar(0, 5 * SCALE), Vec2 { x: 5 * SCALE, y: 0 });
    let up = Vec2::from_polar(HALF_PI_FP, 2 * SCALE);
    assert_eq!(up.y, 2 * SCALE);
    assert_eq!(up.x, 0);
}

#[test]
fn angle_of_axis_vectors() {
    assert_eq!(Vec2 { x: SCALE, y: 0 }.angle(), 0);
    assert_eq!(Vec2 { x: 0, y: SCALE }.angle(), HALF_PI_FP);
    assert_eq!(Vec2 { x: -SCALE, y: 0 }.angle(), PI_FP);
    assert_eq!(Vec2 { x: 0, y: -SCALE }.angle(), -HALF_PI_FP);
    assert_eq!(Vec2 { x: 0, y: 0 }.angle(), 0);
}

#[test]
fn lone_boid_keeps_its_velocity_and_integrates() {
    let settings = Settings { boids: 1, ..quiet_settings() };
    let mut boids = vec![boid_at(100 * SCALE, 100 * SCALE, SCALE, 0)];
    // 100 ms: position advances by velocity * dt * 0.01 = one unit exactly.
    Boid::update_all(&settings, &mut boids, 100 * SCALE);
    assert_eq!(boids[0].velocity, Vec2 { x: SCALE, y: 0 });
    assert_eq!(boids[0].position, Vec2 { x: 101 * SCALE, y: 100 * SCALE });
    assert_eq!(boids[0].hue, 0);
}

#[test]
fn boids_out_of_range_ignore_each_other() {
    let settings = quiet_settings();
    // 100 units apart, visible range 50: neither sees the other.
    let mut boids = vec![
        boid_at(100 * SCALE, 0, SCALE, 0),
        boid_at(200 * SCALE, 0, -SCALE, 0),
    ];
    Boid::update_all(&settings, &mut boids, 0);
    assert_eq!(boids[0].velocity, Vec2 { x: SCALE, y: 0 });
    assert_eq!(boids[1].velocity, Vec2 { x: -SCALE, y: 0 });
}

#[test]
fn too_close_boids_accelerate_apart() {
    let mut settings = quiet_settings();
    settings.separation_factor = SCALE;
    // One unit apart, well within min_distance 5.
    let mut boids = vec![boid_at(100 * SCALE, 0, 0, 0), boid_at(101 * SCALE, 0, 0, 0)];
    Boid::update_all(&settings, &mut boids, 0);
    // Each is pushed directly away from the other.
    assert_eq!(boids[0].velocity, Vec2 { x: -SCALE, y: 0 });
    assert_eq!(boids[1].velocity, Vec2 { x: SCALE, y: 0 });
    // The distance's rate of change is positive: they move apart.
    let rel_pos = boids[1].position.x - boids[0].position.x;
    let rel_vel = boids[1].velocity.x - boids[0].velocity.x;
    assert!(rel_pos * rel_vel > 0);
}

#[test]
fn boid_near_low_edge_turns_back_inward() {
    let mut settings = quiet_settings();
    settings.border_margin = 100000; // 10% of the area
    settings.turn_speed_ratio = 250000; // 0.25
    // Left of the x margin (160 units), inside the y margins.
    let mut boids = vec![boid_at(10 * SCALE, 500 * SCALE, SCALE, 0)];
    Boid::update_all(&settings, &mut boids, 0);
    // turn speed = |v| * 0.25 = 0.25 units, added to x only.
    assert_eq!(boids[0].velocity, Vec2 { x: SCALE + 250000, y: 0 });
    assert!(boids[0].velocity.x > SCALE);
}

#[test]
fn repopulating_always_yields_the_requested_count() {
    let mut settings = Settings::default();
    settings.boids = 25;
    let mut sim = Simulation::create(&settings);
    assert_eq!(sim.boids.len(), 25);
    // Spawn speed is the configured maximum, up to the small error of the
    // fixed-point sine approximation (well under one percent here).
    for b in &sim.boids {
        let speed = b.velocity.magnitude();
        assert!((speed - settings.max_speed).abs() <= settings.max_speed / 100);
        assert!(0 <= b.position.x && b.position.x < SIZE_X);
        assert!(0 <= b.position.y && b.position.y < SIZE_Y);
        assert!(b.radius > 0);
        assert!(0 <= b.hue && b.hue < TAU_FP);
    }
    settings.boids = 7;
    sim.changed(&settings);
    assert_eq!(sim.boids.len(), 7);
}

#[test]
fn paused_simulation_does_not_step() {
    let settings = Settings { boids: 3, ..Settings::default() };
    let mut sim = Simulation::create(&settings);
    let before = sim.boids.clone();
    let stepped = sim.update(&settings, 16 * SCALE, true);
    assert!(!stepped);
    assert_eq!(sim.boids, before);
}

#[test]
fn aligned_pair_end_to_end() {
    // Two agents on the x axis, both moving at the speed limit along it,
    // with cohesion and alignment active: no perpendicular drift appears,
    // the leading agent is slowed by cohesion toward its follower, and the
    // follower is clamped back to the speed limit.
    let settings = Settings {
        boids: 2,
        visible_range: 50 * SCALE,
        min_distance: 5 * SCALE,
        max_speed: SCALE,
        cohesion_factor: 50000,  // 0.05
        alignment_factor: 150000, // 0.15
        separation_factor: 0,
        turn_speed_ratio: 0,
        border_margin: 0,
        color_adapt_factor: 0,
    };
    let mut boids = vec![boid_at(0, 0, SCALE, 0), boid_at(10 * SCALE, 0, SCALE, 0)];
    Boid::update_all(&settings, &mut boids, 100 * SCALE);
    // Follower: cohesion pushes it forward, the clamp brings it back to the
    // speed limit exactly; it advances by velocity * dt * 0.01 = one unit.
    assert_eq!(boids[0].velocity, Vec2 { x: SCALE, y: 0 });
    assert_eq!(boids[0].position, Vec2 { x: SCALE, y: 0 });
    // Leader: it sees the follower's already-updated position (one unit in),
    // cohesion pulls it back by (1 - 10) * 0.05 = -0.45 units of speed, and
    // a slowed vector is not scaled back up by the clamp.
    assert_eq!(boids[1].velocity, Vec2 { x: 550000, y: 0 });
    assert_eq!(boids[1].position, Vec2 { x: 10 * SCALE + 550000, y: 0 });
    // No perpendicular drift on either agent.
    assert_eq!(boids[0].velocity.y, 0);
    assert_eq!(boids[1].velocity.y, 0);
}

#[test]
fn shape_points_face_the_direction_of_travel() {
    let pts = shape_points(2 * SCALE, 0);
    assert_eq!(pts.len(), 3);
    // The long nose points along the rotation with twice the radius.
    assert_eq!(pts[0], Vec2 { x: 4 * SCALE, y: 0 });
    // The flanks sit behind: negative x component, opposite y signs.
    assert!(pts[1].x < 0 && pts[2].x < 0);
    assert!(pts[1].y.signum() != pts[2].y.signum());
}

#[test]
fn default_settings_match_the_documented_values() {
    let s = Settings::default();
    assert_eq!(s.boids, 300);
    assert_eq!(s.visible_range, 80 * SCALE);
    assert_eq!(s.min_distance, 15 * SCALE);
    assert_eq!(s.max_speed, 20 * SCALE);
    assert_eq!(s.cohesion_factor, 50000);
    assert_eq!(s.separation_factor, 600000);
    assert_eq!(s.alignment_factor, 150000);
    assert_eq!(s.turn_speed_ratio, 250000);
    assert_eq!(s.border_margin, 100000);
    assert_eq!(s.color_adapt_factor, 50000);
}

#[test]
fn bigger_neighbours_pull_hue_toward_theirs() {
    let mut settings = quiet_settings();
    settings.color_adapt_factor = SCALE; // adopt the full mean offset
    let mut big = boid_at(100 * SCALE, 0, 0, 0);
    big.radius = 2 * SCALE;
    big.hue = HALF_PI_FP;
    let mut boids = vec![boid_at(101 * SCALE, 0, 0, 0), big];
    Boid::update_all(&settings, &mut boids, 0);
    // The small boid drifts fully onto the big one's hue; the big one sees
    // no larger neighbour and keeps its own.
    assert_eq!(boids[0].hue, HALF_PI_FP);
    assert_eq!(boids[1].hue, HALF_PI_FP);
}

#[test]
fn unpaused_simulation_advances_its_clock() {
    let settings = Settings { boids: 4, ..Settings::default() };
    let mut sim = Simulation::create(&settings);
    assert_eq!(sim.last_timestamp_ms, 0);
    let stepped = sim.update(&settings, 16 * SCALE, false);
    assert!(stepped);
    assert_eq!(sim.last_timestamp_ms, 16 * SCALE);
    assert_eq!(sim.boids.len(), 4);
    let stepped_again = sim.update(&settings, 32 * SCALE, false);
    assert!(stepped_again);
    assert_eq!(sim.last_timestamp_ms, 32 * SCALE);
}
