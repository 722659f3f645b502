use metaballs::{
    blob_sdf, ceil_sqrt, smooth_min, smoothstep_edge, Blob, Config, RenderFrame, Vec2,
    BLOB_RADIUS, MAX_BLOBS, SCALE, SENTINEL, SMOOTHING,
};

fn still_blob(x: i64, y: i64) -> Blob {
    let config = Config { max_speed: 0, gravity: 0, min_distance: 0, friction: 0, time_step: 0 };
    Blob::with_state(config, Vec2::new(x, y), Vec2::new(0, 0)).unwrap()
}

#[test]
fn square_roots_round_up() {
    assert_eq!(ceil_sqrt(0), 0);
    assert_eq!(ceil_sqrt(1), 1);
    assert_eq!(ceil_sqrt(2), 2);
    assert_eq!(ceil_sqrt(16), 4);
    assert_eq!(ceil_sqrt(17), 5);
    assert_eq!(ceil_sqrt(800_000_000), 28_285);
}

#[test]
fn smooth_min_of_far_values_is_exact_minimum() {
    assert_eq!(smooth_min(SENTINEL, 5_000, SMOOTHING), 5_000);
    assert_eq!(smooth_min(5_000, 105_000, SMOOTHING), 5_000);
    assert_eq!(smooth_min(-20_000, 300_000, SMOOTHING), -20_000);
}

#[test]
fn smooth_min_blends_close_values_below_both() {
    // equal values: h = 1/2, result a - k/4
    assert_eq!(smooth_min(10_000, 10_000, SMOOTHING), -15_000);
    let r = smooth_min(0, 50_000, SMOOTHING);
    assert!(r < 0 && r >= -SMOOTHING);
}

#[test]
fn smooth_min_with_narrowest_width_is_minimum() {
    assert_eq!(smooth_min(7, 7, 1), 7);
    assert_eq!(smooth_min(7, 8, 1), 7);
    assert_eq!(smooth_min(9, -3, 1), -3);
}

#[test]
fn sdf_measures_distance_minus_radius() {
    let sdf = blob_sdf(Vec2::new(0, 0), Vec2::new(0, 500_000), 100, 100);
    assert_eq!(sdf, 500_000 - BLOB_RADIUS);
    // aspect 2: horizontal offsets count twice
    let wide = blob_sdf(Vec2::new(0, 0), Vec2::new(300_000, 0), 200, 100);
    assert_eq!(wide, 600_000 - BLOB_RADIUS);
    let inside = blob_sdf(Vec2::new(500_000, 500_000), Vec2::new(500_000, 500_000), 640, 480);
    assert_eq!(inside, -BLOB_RADIUS);
}

#[test]
fn smoothstep_ramps_over_edge_band() {
    assert_eq!(smoothstep_edge(-5), 0);
    assert_eq!(smoothstep_edge(0), 0);
    assert_eq!(smoothstep_edge(500), 500_000);
    assert_eq!(smoothstep_edge(1_000), SCALE);
    assert_eq!(smoothstep_edge(SENTINEL), SCALE);
}

#[test]
fn empty_scene_is_transparent() {
    let frame = RenderFrame::new(&[], 800, 600);
    assert_eq!(frame.count, 0);
    for &(x, y) in &[(0, 0), (500_000, 500_000), (SCALE, SCALE), (123_456, 654_321)] {
        assert_eq!(frame.field_at(Vec2::new(x, y)), SENTINEL);
        assert_eq!(frame.alpha_at(Vec2::new(x, y)), 0);
    }
}

#[test]
fn frame_flips_y_and_zeroes_unused_slots() {
    let blobs = [still_blob(100_000, 200_000), still_blob(SCALE, 0)];
    let frame = RenderFrame::new(&blobs, 640, 480);
    assert_eq!(frame.count, 2);
    assert_eq!(frame.centers[0], Vec2::new(100_000, 800_000));
    assert_eq!(frame.centers[1], Vec2::new(SCALE, SCALE));
    for c in &frame.centers[2..] {
        assert_eq!(*c, Vec2::new(0, 0));
    }
    assert_eq!((frame.width, frame.height), (640, 480));
}

#[test]
fn only_first_forty_particles_are_drawn() {
    let blobs: Vec<Blob> = (0..55).map(|i| still_blob(i * 10_000, i * 5_000)).collect();
    let frame = RenderFrame::new(&blobs, 100, 100);
    assert_eq!(frame.count, MAX_BLOBS);
    for i in 0..MAX_BLOBS {
        assert_eq!(frame.centers[i], Vec2::new(blobs[i].pos.x, SCALE - blobs[i].pos.y));
    }
    let first = RenderFrame::new(&blobs[..MAX_BLOBS], 100, 100);
    assert_eq!(frame.centers, first.centers);
    let st = Vec2::new(450_000, 500_000);
    assert_eq!(frame.field_at(st), first.field_at(st));
}

#[test]
fn far_blob_does_not_change_field_near_another() {
    let near = still_blob(200_000, 500_000);
    let far = still_blob(800_000, 500_000);
    let both = RenderFrame::new(&[near, far], 100, 100);
    let alone = RenderFrame::new(&[near], 100, 100);
    let st = Vec2::new(210_000, 500_000);
    let own = blob_sdf(st, Vec2::new(200_000, 500_000), 100, 100);
    assert_eq!(both.field_at(st), own);
    assert_eq!(alone.field_at(st), own);
}

#[test]
fn pixels_inside_blob_are_opaque_and_outside_transparent() {
    let frame = RenderFrame::new(&[still_blob(500_000, 500_000)], 100, 100);
    assert_eq!(frame.alpha_at(Vec2::new(500_000, 500_000)), SCALE);
    assert_eq!(frame.alpha_at(Vec2::new(500_000, 510_000)), SCALE);
    assert_eq!(frame.alpha_at(Vec2::new(900_000, 100_000)), 0);
}

#[test]
fn smooth_min_never_exceeds_minimum() {
    assert_eq!(smooth_min(99_999, 0, SMOOTHING), 0);
    assert_eq!(smooth_min(0, 99_999, SMOOTHING), 0);
    for a in [-20_000i64, -1, 0, 1, 37_000, 99_999, 150_000] {
        for b in [-20_000i64, -3, 0, 7, 50_000, 100_001] {
            let r = smooth_min(a, b, SMOOTHING);
            let m = a.min(b);
            assert!(r <= m, "smooth_min({a}, {b}) = {r}");
            assert!(r >= m - SMOOTHING / 4, "smooth_min({a}, {b}) = {r}");
        }
    }
}

#[test]
fn pixel_on_a_blob_edge_is_opaque_beside_a_near_blob() {
    let blobs = [still_blob(619_999, 500_000), still_blob(520_000, 500_000)];
    let frame = RenderFrame::new(&blobs, 1, 1);
    let st = Vec2::new(500_000, 500_000);
    assert_eq!(frame.field_at(st), 0);
    assert_eq!(frame.alpha_at(st), SCALE);
}

#[test]
fn adding_a_blob_never_lowers_opacity() {
    let a = still_blob(300_000, 400_000);
    let b = still_blob(380_000, 420_000);
    let one = RenderFrame::new(&[a], 640, 480);
    let two = RenderFrame::new(&[a, b], 640, 480);
    for x in (0..=SCALE).step_by(50_000) {
        for y in (0..=SCALE).step_by(50_000) {
            let st = Vec2::new(x, y);
            assert!(two.field_at(st) <= one.field_at(st));
            assert!(two.alpha_at(st) >= one.alpha_at(st));
        }
    }
}
