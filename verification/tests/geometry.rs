use particle_sim::utils::{fact, hypot, isqrt, point_to_segment_distance_v};

#[test]
fn fact_of_zero_is_one() {
    assert_eq!(fact(0), 1);
}

#[test]
fn fact_of_five() {
    assert_eq!(fact(5), 120);
}

#[test]
fn fact_of_nine() {
    assert_eq!(fact(9), 362880);
}

#[test]
fn isqrt_small_values() {
    assert_eq!(isqrt(0), 0);
    assert_eq!(isqrt(1), 1);
    assert_eq!(isqrt(15), 3);
    assert_eq!(isqrt(16), 4);
    assert_eq!(isqrt(1_000_000), 1000);
}

#[test]
fn isqrt_rounds_down() {
    assert_eq!(isqrt(999_999), 999);
    assert_eq!(isqrt(2), 1);
}

#[test]
fn hypot_pythagorean_triple() {
    assert_eq!(hypot(3, 4), 5);
    assert_eq!(hypot(-3, 4), 5);
    assert_eq!(hypot(3, -4), 5);
}

#[test]
fn hypot_rounds_down() {
    assert_eq!(hypot(2, 3), 3);
    assert_eq!(hypot(1, 1), 1);
}

#[test]
fn hypot_of_zero() {
    assert_eq!(hypot(0, 0), 0);
}

#[test]
fn segment_distance_interior_projection() {
    assert_eq!(point_to_segment_distance_v(5, 5, 0, 0, 10, 0), 5);
}

#[test]
fn segment_distance_clamps_to_first_endpoint() {
    assert_eq!(point_to_segment_distance_v(-3, 4, 0, 0, 10, 0), 5);
}

#[test]
fn segment_distance_clamps_to_second_endpoint() {
    assert_eq!(point_to_segment_distance_v(13, 4, 0, 0, 10, 0), 5);
}

#[test]
fn segment_distance_degenerate_segment() {
    assert_eq!(point_to_segment_distance_v(5, 6, 2, 2, 2, 2), 5);
}

#[test]
fn segment_distance_diagonal_rounds_down() {
    // The true distance from the origin to the segment (0,2)-(2,0) is sqrt(2).
    assert_eq!(point_to_segment_distance_v(0, 0, 0, 2, 2, 0), 1);
}

#[test]
fn segment_distance_point_on_segment() {
    assert_eq!(point_to_segment_distance_v(5, 0, 0, 0, 10, 0), 0);
}
