use metaballs::{Blob, Config, FpsCounter, Simulation, Vec2, SCALE};

fn tuning() -> Config {
    Config {
        max_speed: 20_000,
        gravity: 200,
        min_distance: 5_000,
        friction: 10_000,
        time_step: 500_000,
    }
}

fn drift_only() -> Config {
    Config { gravity: 0, friction: 0, ..tuning() }
}

fn blob(config: Config, pos: (i64, i64), vel: (i64, i64)) -> Blob {
    Blob::with_state(config, Vec2::new(pos.0, pos.1), Vec2::new(vel.0, vel.1)).unwrap()
}

fn speed_squared(b: &Blob) -> i64 {
    b.velocity.x * b.velocity.x + b.velocity.y * b.velocity.y
}

#[test]
fn resting_particle_at_target_stays() {
    let mut b = blob(tuning(), (500_000, 500_000), (0, 0));
    b.update(500_000, 500_000);
    assert_eq!(b.velocity, Vec2::new(0, 0));
    assert_eq!(b.pos, Vec2::new(500_000, 500_000));
}

#[test]
fn particle_pushed_past_left_edge_reflects() {
    let mut b = blob(tuning(), (0, 500_000), (-10_000, 0));
    b.update(-2_000_000_000, 500_000);
    assert_eq!(b.velocity.x, 10_000);
    assert_eq!(b.pos.x, 0);
    assert_eq!(b.pos.y, 500_000);
}

#[test]
fn reflection_at_right_edge_flips_velocity_and_clamps() {
    let mut b = blob(drift_only(), (999_000, 300_000), (10_000, 0));
    b.update(0, 0);
    assert_eq!(b.velocity.x, -10_000);
    assert_eq!(b.pos.x, SCALE);
    assert_eq!(b.pos.y, 300_000);
}

#[test]
fn corner_reflects_both_axes() {
    let mut b = blob(drift_only(), (999_000, 1_000), (10_000, -10_000));
    b.update(0, 0);
    assert_eq!(b.velocity, Vec2::new(-10_000, 10_000));
    assert_eq!(b.pos, Vec2::new(SCALE, 0));
}

#[test]
fn coincident_target_damps_velocity() {
    let mut b = blob(tuning(), (400_000, 400_000), (10_000, -5_000));
    b.update(400_000, 400_000);
    assert_eq!(b.velocity, Vec2::new(9_900, -4_950));
    assert_eq!(b.pos, Vec2::new(404_950, 397_525));
}

#[test]
fn coincident_target_with_zero_threshold_still_damps() {
    let config = Config { min_distance: 0, ..tuning() };
    let mut b = blob(config, (250_000, 750_000), (-2_000, 4_000));
    b.update(250_000, 750_000);
    assert_eq!(b.velocity, Vec2::new(-1_980, 3_960));
}

#[test]
fn attraction_pulls_toward_target() {
    let mut b = blob(tuning(), (500_000, 500_000), (0, 0));
    b.update(1_000_000, 500_000);
    // gravity / distance = 2e-4 / 0.5 = 4e-4 per step
    assert_eq!(b.velocity, Vec2::new(400, 0));
    assert_eq!(b.pos, Vec2::new(500_200, 500_000));
}

#[test]
fn fast_particle_is_rescaled_to_max_speed() {
    let mut b = blob(drift_only(), (500_000, 500_000), (20_000, 20_000));
    b.update(500_000, 500_000);
    // norm rounds up to 28285; 20000 * 20000 / 28285 = 14141
    assert_eq!(b.velocity, Vec2::new(14_141, 14_141));
    assert!(speed_squared(&b) <= 20_000 * 20_000);
}

#[test]
fn speed_and_position_stay_bounded() {
    let targets = [
        (0, 0),
        (1_000_000, 1_000_000),
        (500_000, 500_001),
        (-2_000_000_000, 2_000_000_000),
        (2_147_483_647, -2_147_483_648),
        (123_456, 987_654),
    ];
    let mut sim = Simulation::new(tuning(), 40);
    for step in 0..200 {
        let (tx, ty) = targets[step % targets.len()];
        sim.step(tx, ty);
        for b in &sim.blobs {
            assert!(speed_squared(b) <= 20_000 * 20_000);
            assert!(0 <= b.pos.x && b.pos.x <= SCALE);
            assert!(0 <= b.pos.y && b.pos.y <= SCALE);
        }
    }
}

#[test]
fn new_particles_are_sampled_in_range() {
    for _ in 0..100 {
        let b = Blob::new(tuning());
        assert!(0 <= b.pos.x && b.pos.x < SCALE);
        assert!(0 <= b.pos.y && b.pos.y < SCALE);
        assert!(0 <= b.velocity.x && b.velocity.x < 20_000);
        assert!(0 <= b.velocity.y && b.velocity.y < 20_000);
    }
    let still = Blob::new(Config { max_speed: 0, ..tuning() });
    assert_eq!(still.velocity, Vec2::new(0, 0));
}

#[test]
fn state_outside_invariant_is_refused() {
    let c = tuning();
    assert!(Blob::with_state(c, Vec2::new(-1, 0), Vec2::new(0, 0)).is_none());
    assert!(Blob::with_state(c, Vec2::new(0, SCALE + 1), Vec2::new(0, 0)).is_none());
    assert!(Blob::with_state(c, Vec2::new(0, 0), Vec2::new(20_001, 0)).is_none());
    assert!(Blob::with_state(c, Vec2::new(0, 0), Vec2::new(0, -20_001)).is_none());
    assert!(Blob::with_state(c, Vec2::new(SCALE, 0), Vec2::new(-20_000, 20_000)).is_some());
}

#[test]
fn step_advances_every_particle() {
    let mut sim = Simulation::new(tuning(), 3);
    let mut expected = sim.blobs.clone();
    for b in expected.iter_mut() {
        b.update(700_000, 200_000);
    }
    sim.step(700_000, 200_000);
    for (a, b) in sim.blobs.iter().zip(expected.iter()) {
        assert_eq!(a.pos, b.pos);
        assert_eq!(a.velocity, b.velocity);
    }
}

#[test]
fn fps_counts_frames_of_last_second() {
    let mut fps = FpsCounter::new();
    assert_eq!(fps.run(0), 1);
    assert_eq!(fps.run(500), 2);
    assert_eq!(fps.run(999), 3);
    assert_eq!(fps.run(1000), 3);
    assert_eq!(fps.run(2500), 1);
}
