use disk_pie::geometry::{
    depth_below, inner_radius_at, is_wide_enough, ring_radius_at, ANGLE_ONE, FULL_TURN, HALF_TURN,
    OUTER_RADIUS, PIXEL, RADIUS_ONE, RING_LIMIT,
};

#[test]
fn turn_constants_are_multiples_of_pi() {
    let full = FULL_TURN as f64 / ANGLE_ONE as f64;
    let half = HALF_TURN as f64 / ANGLE_ONE as f64;
    assert!((full - 2.0 * std::f64::consts::PI).abs() < 1e-9);
    assert!((half - std::f64::consts::PI).abs() < 1e-9);
    assert_eq!(OUTER_RADIUS, RING_LIMIT * RADIUS_ONE);
}

#[test]
fn ring_radius_of_first_levels() {
    assert_eq!(ring_radius_at(0), 0);
    assert_eq!(ring_radius_at(1), RADIUS_ONE);
    assert_eq!(ring_radius_at(2), 7730941133);
    assert_eq!(ring_radius_at(3), 10479720203);
}

#[test]
fn ring_radius_follows_the_formula() {
    for depth in 0..40u32 {
        let exact = 5.0 - 5.0 * (0.8f64).powi(depth as i32);
        let got = ring_radius_at(depth) as f64 / RADIUS_ONE as f64;
        assert!((exact - got).abs() < 1e-8, "depth {}", depth);
    }
}

#[test]
fn ring_radius_grows_and_stays_within_outer_radius() {
    let mut last = 0;
    for depth in 0..300u32 {
        let radius = ring_radius_at(depth);
        assert!(radius >= last);
        assert!(radius <= OUTER_RADIUS);
        last = radius;
    }
    assert_eq!(ring_radius_at(u32::MAX), OUTER_RADIUS);
}

#[test]
fn inner_radius_is_ring_of_parent() {
    assert_eq!(inner_radius_at(0), 0);
    assert_eq!(inner_radius_at(1), 0);
    assert_eq!(inner_radius_at(2), RADIUS_ONE);
    assert_eq!(inner_radius_at(3), ring_radius_at(2));
}

#[test]
fn depth_stops_counting_at_the_top() {
    assert_eq!(depth_below(0), 1);
    assert_eq!(depth_below(41), 42);
    assert_eq!(depth_below(u32::MAX), u32::MAX);
}

#[test]
fn an_arc_is_wide_enough_from_one_pixel_on() {
    // At one pixel to the unit radius, a fifth of a radian at the outer
    // radius is one pixel long.
    let fifth = ANGLE_ONE / 5;
    assert!(is_wide_enough(fifth + 1, PIXEL));
    assert!(!is_wide_enough(fifth, PIXEL));
    assert!(is_wide_enough(fifth / 100 + 1, 100 * PIXEL));
    assert!(!is_wide_enough(fifth / 100 - 1, 100 * PIXEL));
    assert!(!is_wide_enough(0, u64::MAX));
    assert!(!is_wide_enough(u64::MAX, 0));
    assert!(is_wide_enough(u64::MAX, u64::MAX));
}
