use soft_body_simulation::entities::segment::Segment;
use soft_body_simulation::utils::conversion::coords_to_segment;
use soft_body_simulation::utils::vector::Vector2;

fn seg(x1: i32, y1: i32, x2: i32, y2: i32) -> Segment {
    Segment { p1: Vector2::new(x1, y1), p2: Vector2::new(x2, y2) }
}

#[test]
fn coords_to_segment_keeps_the_order_of_the_ends() {
    let s = coords_to_segment((1, 2), (3, 4));
    assert_eq!(s.p1, Vector2::new(1, 2));
    assert_eq!(s.p2, Vector2::new(3, 4));
}

#[test]
fn projection_above_a_horizontal_segment_centered_at_the_origin() {
    let s = seg(-5000, 0, 5000, 0);
    assert_eq!(s.get_projection(&Vector2::new(2000, 7000)), Some(Vector2::new(2000, 0)));
    assert_eq!(s.get_projection(&Vector2::new(-3000, -1000)), Some(Vector2::new(-3000, 0)));
}

#[test]
fn projection_on_a_horizontal_segment_away_from_the_origin() {
    let s = seg(1000, 4000, 9000, 4000);
    assert_eq!(s.get_projection(&Vector2::new(2500, -7000)), Some(Vector2::new(2500, 4000)));
}

#[test]
fn projection_beside_a_vertical_segment() {
    let s = seg(3000, -2000, 3000, 8000);
    assert_eq!(s.get_projection(&Vector2::new(-1000, 5000)), Some(Vector2::new(3000, 5000)));
    assert_eq!(s.get_projection(&Vector2::new(9000, -2000)), Some(Vector2::new(3000, -2000)));
}

#[test]
fn projection_at_the_ends_is_present() {
    let s = seg(-5000, 0, 5000, 0);
    assert_eq!(s.get_projection(&Vector2::new(-5000, 3000)), Some(Vector2::new(-5000, 0)));
    assert_eq!(s.get_projection(&Vector2::new(5000, 3000)), Some(Vector2::new(5000, 0)));
}

#[test]
fn projection_past_the_ends_is_absent() {
    let s = seg(-5000, 0, 5000, 0);
    assert_eq!(s.get_projection(&Vector2::new(5001, 3000)), None);
    assert_eq!(s.get_projection(&Vector2::new(-5001, 3000)), None);
    let v = seg(3000, -2000, 3000, 8000);
    assert_eq!(v.get_projection(&Vector2::new(0, 8001)), None);
    assert_eq!(v.get_projection(&Vector2::new(0, -2001)), None);
}

#[test]
fn projection_on_a_diagonal_segment() {
    let s = seg(0, 0, 10_000, 10_000);
    assert_eq!(s.get_projection(&Vector2::new(10_000, 0)), Some(Vector2::new(5000, 5000)));
    assert_eq!(s.get_projection(&Vector2::new(0, 0)), Some(Vector2::new(0, 0)));
    assert_eq!(s.get_projection(&Vector2::new(20_000, 0)), Some(Vector2::new(10_000, 10_000)));
    assert_eq!(s.get_projection(&Vector2::new(21_000, 0)), None);
    assert_eq!(s.get_projection(&Vector2::new(-1000, 0)), None);
}

#[test]
fn projection_on_a_falling_diagonal() {
    // from (0, 8) down to (6, 0); the foot of (0, 0) is at 16/25 of the way
    let s = seg(0, 8000, 6000, 0);
    assert_eq!(s.get_projection(&Vector2::new(0, 0)), Some(Vector2::new(3840, 2880)));
}

#[test]
fn projection_is_rounded_toward_the_first_end() {
    // exact foot: (1.8, 0.6) steps of the grid
    let s = seg(0, 0, 3, 1);
    assert_eq!(s.get_projection(&Vector2::new(2, 0)), Some(Vector2::new(1, 0)));
    // the same segment the other way round: the foot is rounded toward (3, 1)
    let t = seg(3, 1, 0, 0);
    assert_eq!(t.get_projection(&Vector2::new(2, 0)), Some(Vector2::new(2, 1)));
}

#[test]
fn projection_of_a_point_on_the_segment_is_the_point() {
    let s = seg(-4000, -2000, 4000, 2000);
    assert_eq!(s.get_projection(&Vector2::new(2000, 1000)), Some(Vector2::new(2000, 1000)));
}

#[test]
fn projection_on_a_segment_without_length() {
    let s = seg(1000, 1000, 1000, 1000);
    assert_eq!(s.get_projection(&Vector2::new(1000, 1000)), Some(Vector2::new(1000, 1000)));
    // the one point of the segment is the foot of every point
    assert_eq!(s.get_projection(&Vector2::new(7000, 5000)), Some(Vector2::new(1000, 1000)));
    assert_eq!(s.get_projection(&Vector2::new(1000, 5000)), Some(Vector2::new(1000, 1000)));
    assert_eq!(s.get_projection(&Vector2::new(-3000, 1000)), Some(Vector2::new(1000, 1000)));
}

#[test]
fn projection_with_the_largest_coordinates() {
    let s = seg(i32::MIN, i32::MIN, i32::MAX, i32::MAX);
    assert_eq!(s.get_projection(&Vector2::new(0, 0)), Some(Vector2::new(0, 0)));
    assert_eq!(
        s.get_projection(&Vector2::new(i32::MAX, i32::MAX)),
        Some(Vector2::new(i32::MAX, i32::MAX))
    );
    assert_eq!(s.get_projection(&Vector2::new(i32::MAX, i32::MIN)), Some(Vector2::new(-1, -1)));
}

#[test]
fn ray_crosses_a_segment_beyond_the_point() {
    let s = seg(0, 10_000, 10_000, 10_000);
    assert!(s.vertical_raycast(&Vector2::new(5000, 5000)));
    assert!(s.vertical_raycast(&Vector2::new(0, 9999)));
}

#[test]
fn ray_misses_a_segment_before_the_point() {
    let s = seg(0, 0, 10_000, 0);
    assert!(!s.vertical_raycast(&Vector2::new(5000, 5000)));
    // a point on the segment is not beyond it
    assert!(!s.vertical_raycast(&Vector2::new(5000, 0)));
}

#[test]
fn ray_range_is_half_open() {
    let s = seg(0, 10_000, 10_000, 10_000);
    assert!(s.vertical_raycast(&Vector2::new(0, 0)));
    assert!(!s.vertical_raycast(&Vector2::new(10_000, 0)));
    assert!(!s.vertical_raycast(&Vector2::new(-1, 0)));
    let reversed = seg(10_000, 10_000, 0, 10_000);
    assert!(reversed.vertical_raycast(&Vector2::new(0, 0)));
    assert!(!reversed.vertical_raycast(&Vector2::new(10_000, 0)));
}

#[test]
fn ray_never_crosses_a_vertical_segment() {
    let s = seg(5000, 0, 5000, 10_000);
    assert!(!s.vertical_raycast(&Vector2::new(5000, -1000)));
    assert!(!s.vertical_raycast(&Vector2::new(5000, 5000)));
    assert!(!s.vertical_raycast(&Vector2::new(4999, 5000)));
}

#[test]
fn ray_against_a_slanted_segment() {
    // the line passes (5, 5) at x = 5
    let s = seg(0, 0, 10_000, 10_000);
    assert!(s.vertical_raycast(&Vector2::new(5000, 4999)));
    assert!(!s.vertical_raycast(&Vector2::new(5000, 5000)));
    assert!(!s.vertical_raycast(&Vector2::new(5000, 5001)));
    let reversed = seg(10_000, 10_000, 0, 0);
    assert!(reversed.vertical_raycast(&Vector2::new(5000, 4999)));
    assert!(!reversed.vertical_raycast(&Vector2::new(5000, 5000)));
}

#[test]
fn ray_with_the_largest_coordinates() {
    let s = seg(i32::MIN, i32::MAX, i32::MAX, i32::MIN);
    assert!(s.vertical_raycast(&Vector2::new(i32::MIN, i32::MIN)));
    assert!(!s.vertical_raycast(&Vector2::new(0, 0)));
    assert!(s.vertical_raycast(&Vector2::new(0, -2)));
}
