use soft_body_simulation::entities::segment::Segment;
use soft_body_simulation::utils::math::{
    all_equal, close_to_equal, do_segments_intersect, negative_diff, point_diff,
    runge_kutta_integration, DELTA_T_RUNGE_KUTTA, HALF, LATER_WEIGHT, TOLERANCE,
};
use soft_body_simulation::utils::vector::Vector2;

fn seg(x1: i32, y1: i32, x2: i32, y2: i32) -> Segment {
    Segment { p1: Vector2::new(x1, y1), p2: Vector2::new(x2, y2) }
}

#[test]
fn constants_of_the_integrator() {
    assert_eq!(DELTA_T_RUNGE_KUTTA, 250);
    assert_eq!(HALF, 500);
    assert_eq!(LATER_WEIGHT, 200);
    assert_eq!(TOLERANCE, 1);
}

#[test]
fn all_equal_of_nothing_is_false() {
    assert!(!all_equal(vec![]));
}

#[test]
fn all_equal_of_agreeing_votes_is_true() {
    assert!(all_equal(vec![true, true, true]));
    assert!(all_equal(vec![false, false]));
    assert!(all_equal(vec![false]));
    assert!(all_equal(vec![true]));
}

#[test]
fn all_equal_of_differing_votes_is_false() {
    assert!(!all_equal(vec![true, false, true]));
    assert!(!all_equal(vec![false, false, false, true]));
    assert!(!all_equal(vec![true, false]));
}

#[test]
fn point_diff_leads_from_the_first_to_the_second() {
    let a = Vector2::new(1000, 2000);
    let b = Vector2::new(4000, -2000);
    assert_eq!(point_diff(&a, &b), Vector2::new(3000, -4000));
    assert_eq!(point_diff(&b, &a), Vector2::new(-3000, 4000));
    assert_eq!(
        point_diff(&Vector2::new(i32::MAX, 0), &Vector2::new(i32::MIN, 0)),
        Vector2::new(i32::MIN, 0)
    );
}

#[test]
fn negative_diff_compares_without_overflow() {
    assert!(negative_diff(1, 2));
    assert!(!negative_diff(2, 1));
    assert!(!negative_diff(2, 2));
    assert!(negative_diff(i32::MIN, i32::MAX));
    assert!(!negative_diff(i32::MAX, i32::MIN));
}

#[test]
fn close_to_equal_is_equality_on_the_grid() {
    assert!(close_to_equal(5, 5));
    assert!(!close_to_equal(5, 6));
    assert!(!close_to_equal(6, 5));
    assert!(!close_to_equal(i32::MIN, i32::MAX));
    assert!(close_to_equal(i32::MIN, i32::MIN));
}

#[test]
fn segments_crossing_at_one_inner_point_intersect() {
    let a = seg(0, 0, 10_000, 10_000);
    let b = seg(0, 10_000, 10_000, 0);
    assert!(do_segments_intersect(&a, &b));
    assert!(do_segments_intersect(&b, &a));
}

#[test]
fn parallel_segments_apart_do_not_intersect() {
    let a = seg(0, 0, 10_000, 0);
    let b = seg(0, 5000, 10_000, 5000);
    assert!(!do_segments_intersect(&a, &b));
    assert!(!do_segments_intersect(&b, &a));
    let c = seg(0, 0, 10_000, 10_000);
    let d = seg(1000, 0, 11_000, 10_000);
    assert!(!do_segments_intersect(&c, &d));
}

#[test]
fn overlapping_segments_on_one_line_intersect() {
    let a = seg(0, 0, 10_000, 0);
    let b = seg(5000, 0, 15_000, 0);
    assert!(do_segments_intersect(&a, &b));
    assert!(do_segments_intersect(&b, &a));
    let c = seg(0, 0, 10_000, 10_000);
    let d = seg(5000, 5000, 20_000, 20_000);
    assert!(do_segments_intersect(&c, &d));
}

#[test]
fn separate_segments_on_one_line_do_not_intersect() {
    let a = seg(0, 0, 10_000, 0);
    let b = seg(11_000, 0, 15_000, 0);
    assert!(!do_segments_intersect(&a, &b));
    assert!(!do_segments_intersect(&b, &a));
}

#[test]
fn segments_on_one_line_that_share_an_end() {
    // the votes are "before", not "before or at": the result depends on
    // which segment comes first
    let a = seg(0, 0, 10_000, 0);
    let b = seg(10_000, 0, 20_000, 0);
    assert!(do_segments_intersect(&a, &b));
    assert!(!do_segments_intersect(&b, &a));
}

#[test]
fn a_first_segment_without_length_is_judged_by_the_ranges() {
    // the point (5, 5) lies off the line of the segment, within its range of x
    let point = seg(5000, 5000, 5000, 5000);
    let level = seg(0, 0, 10_000, 0);
    assert!(do_segments_intersect(&point, &level));
    assert!(!do_segments_intersect(&level, &point));
    // outside both ranges of the segment the point is not counted
    let away = seg(15_000, 5000, 15_000, 5000);
    assert!(!do_segments_intersect(&away, &level));
    // a point on the segment is counted as first argument, and as second
    // only where the start of the point lies on the line
    let on = seg(5000, 0, 5000, 0);
    assert!(do_segments_intersect(&on, &level));
    assert!(do_segments_intersect(&level, &on));
}

#[test]
fn segments_on_crossing_lines_that_miss_each_other() {
    let a = seg(0, 0, 10_000, 10_000);
    let b = seg(20_000, 0, 30_000, -10_000);
    assert!(!do_segments_intersect(&a, &b));
    let c = seg(0, 0, 4000, 4000);
    let d = seg(0, 10_000, 10_000, 0);
    assert!(!do_segments_intersect(&c, &d));
    assert!(!do_segments_intersect(&d, &c));
}

#[test]
fn segments_that_touch_at_an_end_intersect() {
    let a = seg(0, 0, 5000, 5000);
    let b = seg(0, 10_000, 10_000, 0);
    assert!(do_segments_intersect(&a, &b));
    assert!(do_segments_intersect(&b, &a));
}

#[test]
fn segments_with_the_largest_coordinates() {
    let a = seg(i32::MIN, i32::MIN, i32::MAX, i32::MAX);
    let b = seg(i32::MIN, i32::MAX, i32::MAX, i32::MIN);
    assert!(do_segments_intersect(&a, &b));
    let c = seg(i32::MIN, i32::MAX, i32::MIN + 1, i32::MAX);
    assert!(!do_segments_intersect(&a, &c));
}

#[test]
fn integrator_blends_a_constant_acceleration() {
    // each slope is a quarter of the acceleration; the blend is 1.4 slopes
    let field = |_: Vector2, _: Vector2, _: Vector2, _: Vector2| {
        (Vector2::new(1000, 0), Vector2::new(0, 2000))
    };
    let r = runge_kutta_integration(
        &field,
        Vector2::new(0, 0),
        Vector2::new(100_000, 0),
        Vector2::zero(),
        Vector2::zero(),
    );
    assert_eq!(r, (Vector2::new(350, 0), Vector2::new(0, 700)));
}

#[test]
fn integrator_samples_at_the_half_steps() {
    // the acceleration is the velocity: the later samples see what the
    // earlier ones added to it
    let field = |_: Vector2, _: Vector2, v1: Vector2, v2: Vector2| (v1, v2);
    let r = runge_kutta_integration(
        &field,
        Vector2::new(0, 0),
        Vector2::new(100_000, 0),
        Vector2::new(8000, 0),
        Vector2::new(0, -16_000),
    );
    // first: 8000 -> slope 2000; second: 8000 + 1000 -> slope 2250;
    // third: 8000 + 1125 -> slope 2281; blend 2000 + 450 + 456
    assert_eq!(r, (Vector2::new(2906, 0), Vector2::new(0, -5812)));
}

#[test]
fn integrator_moves_the_positions_of_the_later_samples() {
    // the acceleration is the position of the particle itself
    let field = |p1: Vector2, p2: Vector2, _: Vector2, _: Vector2| (p1, p2);
    let r = runge_kutta_integration(
        &field,
        Vector2::new(64_000, 0),
        Vector2::new(0, -128_000),
        Vector2::zero(),
        Vector2::zero(),
    );
    // first: 64000 -> slope 16000; the half step moves by 16000 / 2 / 4
    // second: 66000 -> slope 16500; third: 64000 + 2062 -> slope 16515
    assert_eq!(r, (Vector2::new(22_603, 0), Vector2::new(0, -45_206)));
}

#[test]
fn integrator_pushes_overlapping_samples_apart() {
    // the two ends attract each other and would overlap at the half step
    let field = |p1: Vector2, p2: Vector2, _: Vector2, _: Vector2| (p1.minus(p2), p2.minus(p1));
    let r = runge_kutta_integration(
        &field,
        Vector2::new(0, 0),
        Vector2::new(4000, 0),
        Vector2::zero(),
        Vector2::zero(),
    );
    assert_eq!(r, (Vector2::new(-3487, 0), Vector2::new(3487, 0)));
}
