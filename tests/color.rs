use nfrs::{player_hue, FULL_TURN_MILLIDEG, GOLDEN_ANGLE_MILLIDEG};

#[test]
fn hue_of_first_ids() {
    assert_eq!(player_hue(0), 0);
    assert_eq!(player_hue(1), 137508);
    assert_eq!(player_hue(2), 275016);
    assert_eq!(player_hue(3), 52524);
}

#[test]
fn consecutive_ids_differ_by_golden_angle() {
    for id in [0u64, 1, 2, 41, 1000, 359_999, 4_294_967_295] {
        let a = player_hue(id) as u64;
        let b = player_hue(id + 1) as u64;
        assert_eq!(b, (a + GOLDEN_ANGLE_MILLIDEG) % FULL_TURN_MILLIDEG);
    }
}

#[test]
fn hue_of_largest_id_is_exact() {
    assert_eq!(player_hue(u64::MAX), 75420);
    assert!((player_hue(u64::MAX) as u64) < FULL_TURN_MILLIDEG);
}

#[test]
fn hue_in_degrees_matches_golden_angle_policy() {
    let degrees = player_hue(5) as f64 / 1000.0;
    let expected = (5.0f64 * 137.508) % 360.0;
    assert!((degrees - expected).abs() < 1e-9);
}
