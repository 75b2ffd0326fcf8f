//! Shared predicates: sign votes and the segment crossing test.

use crate::entities::interaction::{
    handle_temp_point_point_collision, spec_temp_point_point_collision,
};
use crate::entities::segment::{lemma_products_fit, Segment};
use crate::utils::vector::Vector2;
use vstd::prelude::*;

verus! {

/// The way from `point1` to `point2`, saturating.
pub fn point_diff(point1: &Vector2, point2: &Vector2) -> (r: Vector2)
    ensures
        r == point2.minus(*point1),
{
    point2.minus(*point1)
}

/// `val1` is smaller than `val2`.
pub open spec fn spec_negative_diff(val1: i32, val2: i32) -> bool {
    val1 - val2 < 0
}

/// Whether `val1 - val2` is negative, decided without overflow.
#[verifier::when_used_as_spec(spec_negative_diff)]
pub fn negative_diff(val1: i32, val2: i32) -> (r: bool)
    ensures
        r == spec_negative_diff(val1, val2),
{
    (val1 as i64) - (val2 as i64) < 0
}

/// The sequence is not empty and all its entries are the same.
pub open spec fn uniform(s: Seq<bool>) -> bool {
    s.len() > 0 && forall|i: int| 0 <= i < s.len() ==> #[trigger] s[i] == s[0]
}

/// Whether the list is not empty and all its entries agree.
pub fn all_equal(conditions: Vec<bool>) -> (r: bool)
    ensures
        r == uniform(conditions@),
{
    if conditions.len() == 0 {
        return false;
    }
    let first: bool = conditions[0];
    let mut i: usize = 1;
    while i < conditions.len()
        invariant
            1 <= i <= conditions.len(),
            first == conditions@[0],
            forall|j: int| 0 <= j < i ==> conditions@[j] == first,
        decreases conditions.len() - i,
    {
        if conditions[i] != first {
            return false;
        }
        i += 1;
    }
    true
}

/// The cross product of `(ax, ay)` and `(bx, by)`.
pub open spec fn cross2(ax: int, ay: int, bx: int, by: int) -> int {
    ax * by - ay * bx
}

/// The cross product of the two directions; zero when the segments are
/// parallel or one of them has no length.
pub open spec fn directions_cross(s1: Segment, s2: Segment) -> int {
    cross2(s1.dx(), s1.dy(), s2.dx(), s2.dy())
}

/// The way from `s1.p1` to `s2.p1`, crossed with the direction of `s1`: the
/// parameter of the crossing point on `s2`, times `directions_cross`.
pub open spec fn offset_cross_first(s1: Segment, s2: Segment) -> int {
    cross2(s2.p1.x - s1.p1.x, s2.p1.y - s1.p1.y, s1.dx(), s1.dy())
}

/// The way from `s1.p1` to `s2.p1`, crossed with the direction of `s2`: the
/// parameter of the crossing point on `s1`, times `directions_cross`.
pub open spec fn offset_cross_second(s1: Segment, s2: Segment) -> int {
    cross2(s2.p1.x - s1.p1.x, s2.p1.y - s1.p1.y, s2.dx(), s2.dy())
}

/// The fraction `num / den` lies in `[0, 1]`, for `den` other than zero.
pub open spec fn within_unit(num: int, den: int) -> bool {
    if den > 0 {
        0 <= num <= den
    } else {
        den <= num <= 0
    }
}

/// The range between `a1` and `a2` reaches into the range between `b1`
/// and `b2`: it ends at or after the place where the other begins, and
/// begins before the place where the other ends. Two ranges that share one
/// end reach into each other one way only: the first into the second where
/// the first ends at the common place.
pub open spec fn reaches_into(a1: int, a2: int, b1: int, b2: int) -> bool {
    let a_low: int = if a1 <= a2 { a1 } else { a2 };
    let a_high: int = if a1 <= a2 { a2 } else { a1 };
    let b_low: int = if b1 <= b2 { b1 } else { b2 };
    let b_high: int = if b1 <= b2 { b2 } else { b1 };
    b_low <= a_high && a_low < b_high
}

/// Along `x` or along `y`, the range of `s1` reaches into the range of
/// `s2`.
pub open spec fn ranges_interleave(s1: Segment, s2: Segment) -> bool {
    ||| reaches_into(s1.p1.x as int, s1.p2.x as int, s2.p1.x as int, s2.p2.x as int)
    ||| reaches_into(s1.p1.y as int, s1.p2.y as int, s2.p1.y as int, s2.p2.y as int)
}

/// The four votes "an end of the first range lies before an end of the
/// second".
pub open spec fn votes(a1: i32, a2: i32, b1: i32, b2: i32) -> Seq<bool> {
    seq![
        negative_diff(a1, b1),
        negative_diff(a1, b2),
        negative_diff(a2, b1),
        negative_diff(a2, b2),
    ]
}

/// The four votes disagree exactly where the first range reaches into the
/// second: they agree where the first range lies all before the second, or
/// where no end of it lies before an end of the second.
pub proof fn lemma_votes_disagree(a1: i32, a2: i32, b1: i32, b2: i32)
    ensures
        !uniform(votes(a1, a2, b1, b2)) <==> reaches_into(
            a1 as int,
            a2 as int,
            b1 as int,
            b2 as int,
        ),
{
    let v: Seq<bool> = votes(a1, a2, b1, b2);
    assert(v.len() == 4);
    assert(v[0] == (a1 < b1) && v[1] == (a1 < b2) && v[2] == (a2 < b1) && v[3] == (a2 < b2));
}

/// What the crossing test decides of two segments.
///
/// Where the lines of the two segments cross, the segments are counted as
/// meeting exactly where they have a point in common: both parameters of
/// the crossing point lie in `[0, 1]`.
///
/// Where the directions do not cross and the start of `s2` does not lie on
/// the line of `s1`, they are never counted as meeting. This holds of
/// parallel segments on different lines, and of a second segment without
/// length beside the line of the first.
///
/// In what is left (both on one line, or the first segment without length)
/// the test looks at the ranges alone: the segments are counted as meeting
/// where, along `x` or along `y`, the range of `s1` reaches into the range
/// of `s2`. So the answer may depend on the order of the two segments: two
/// segments on one line that share an end are counted where the first ends
/// at the common end, and a first segment without length is counted
/// wherever its point lies within the ranges of the second, also off its
/// line.
pub open spec fn counted_as_meeting(s1: Segment, s2: Segment) -> bool {
    let num: int = offset_cross_first(s1, s2);
    let den: int = directions_cross(s1, s2);
    if num == 0 && den == 0 {
        ranges_interleave(s1, s2)
    } else if den == 0 {
        false
    } else {
        within_unit(num, den) && within_unit(offset_cross_second(s1, s2), den)
    }
}

/// On crossing lines the two parameters of the crossing test name one
/// place: it lies at `offset_cross_second / directions_cross` of the way
/// along the first segment, and at `offset_cross_first / directions_cross`
/// of the way along the second. Where the segments meet, both fractions lie
/// in `[0, 1]`, so the place lies on both.
pub proof fn lemma_crossing_place(s1: Segment, s2: Segment)
    ensures
        directions_cross(s1, s2) * s1.p1.x + offset_cross_second(s1, s2) * s1.dx()
            == directions_cross(s1, s2) * s2.p1.x + offset_cross_first(s1, s2) * s2.dx(),
        directions_cross(s1, s2) * s1.p1.y + offset_cross_second(s1, s2) * s1.dy()
            == directions_cross(s1, s2) * s2.p1.y + offset_cross_first(s1, s2) * s2.dy(),
{
    let cx: int = s2.p1.x - s1.p1.x;
    let cy: int = s2.p1.y - s1.p1.y;
    let (ax, ay) = (s1.dx(), s1.dy());
    let (bx, by) = (s2.dx(), s2.dy());
    let den: int = directions_cross(s1, s2);
    let first: int = offset_cross_first(s1, s2);
    let second: int = offset_cross_second(s1, s2);
    assert(den == ax * by - ay * bx);
    assert(first == cx * ay - cy * ax);
    assert(second == cx * by - cy * bx);
    assert(second * ax - first * bx == den * cx) by {
        assert(second * ax == (cx * by) * ax - (cy * bx) * ax) by (nonlinear_arith)
            requires
                second == cx * by - cy * bx,
        ;
        assert(first * bx == (cx * ay) * bx - (cy * ax) * bx) by (nonlinear_arith)
            requires
                first == cx * ay - cy * ax,
        ;
        assert(den * cx == (ax * by) * cx - (ay * bx) * cx) by (nonlinear_arith)
            requires
                den == ax * by - ay * bx,
        ;
        assert((cx * by) * ax == (ax * by) * cx) by (nonlinear_arith);
        assert((cy * bx) * ax == (cy * ax) * bx) by (nonlinear_arith);
        assert((cx * ay) * bx == (ay * bx) * cx) by (nonlinear_arith);
    }
    assert(second * ay - first * by == den * cy) by {
        assert(second * ay == (cx * by) * ay - (cy * bx) * ay) by (nonlinear_arith)
            requires
                second == cx * by - cy * bx,
        ;
        assert(first * by == (cx * ay) * by - (cy * ax) * by) by (nonlinear_arith)
            requires
                first == cx * ay - cy * ax,
        ;
        assert(den * cy == (ax * by) * cy - (ay * bx) * cy) by (nonlinear_arith)
            requires
                den == ax * by - ay * bx,
        ;
        assert((cx * by) * ay == (cx * ay) * by) by (nonlinear_arith);
        assert((cy * bx) * ay == (ay * bx) * cy) by (nonlinear_arith);
        assert((cy * ax) * by == (ax * by) * cy) by (nonlinear_arith);
    }
    assert(den * s2.p1.x == den * s1.p1.x + den * cx) by (nonlinear_arith)
        requires
            cx == s2.p1.x - s1.p1.x,
    ;
    assert(den * s2.p1.y == den * s1.p1.y + den * cy) by (nonlinear_arith)
        requires
            cy == s2.p1.y - s1.p1.y,
    ;
}

/// Whether the two segments are counted as meeting.
pub fn do_segments_intersect(segment1: &Segment, segment2: &Segment) -> (r: bool)
    ensures
        r == counted_as_meeting(*segment1, *segment2),
{
    let cx: i64 = segment2.p1.x as i64 - segment1.p1.x as i64;
    let cy: i64 = segment2.p1.y as i64 - segment1.p1.y as i64;
    let ax: i64 = segment1.p2.x as i64 - segment1.p1.x as i64;
    let ay: i64 = segment1.p2.y as i64 - segment1.p1.y as i64;
    let bx: i64 = segment2.p2.x as i64 - segment2.p1.x as i64;
    let by: i64 = segment2.p2.y as i64 - segment2.p1.y as i64;
    proof {
        lemma_products_fit(cx as int, cy as int, ay as int, ax as int);
        lemma_products_fit(ax as int, ay as int, by as int, bx as int);
        lemma_products_fit(cx as int, cy as int, by as int, bx as int);
    }
    let numerator: i128 = cx as i128 * ay as i128 - cy as i128 * ax as i128;
    let denominator: i128 = ax as i128 * by as i128 - ay as i128 * bx as i128;
    if numerator == 0 && denominator == 0 {
        let xs: Vec<bool> = vec![
            negative_diff(segment1.p1.x, segment2.p1.x),
            negative_diff(segment1.p1.x, segment2.p2.x),
            negative_diff(segment1.p2.x, segment2.p1.x),
            negative_diff(segment1.p2.x, segment2.p2.x),
        ];
        let ys: Vec<bool> = vec![
            negative_diff(segment1.p1.y, segment2.p1.y),
            negative_diff(segment1.p1.y, segment2.p2.y),
            negative_diff(segment1.p2.y, segment2.p1.y),
            negative_diff(segment1.p2.y, segment2.p2.y),
        ];
        assert(xs@ =~= votes(segment1.p1.x, segment1.p2.x, segment2.p1.x, segment2.p2.x));
        assert(ys@ =~= votes(segment1.p1.y, segment1.p2.y, segment2.p1.y, segment2.p2.y));
        proof {
            lemma_votes_disagree(segment1.p1.x, segment1.p2.x, segment2.p1.x, segment2.p2.x);
            lemma_votes_disagree(segment1.p1.y, segment1.p2.y, segment2.p1.y, segment2.p2.y);
        }
        return !all_equal(xs) || !all_equal(ys);
    }
    if denominator == 0 {
        return false;
    }
    let second: i128 = cx as i128 * by as i128 - cy as i128 * bx as i128;
    in_unit_range(numerator, denominator) && in_unit_range(second, denominator)
}

/// Whether `num / den` lies in `[0, 1]`, for `den` other than zero.
fn in_unit_range(num: i128, den: i128) -> (r: bool)
    ensures
        r == within_unit(num as int, den as int),
{
    if den > 0 {
        0 <= num && num <= den
    } else {
        den <= num && num <= 0
    }
}

/// The tolerance of `close_to_equal`: one step of the grid.
pub const TOLERANCE: i32 = 1;

/// The two scalars differ by less than the tolerance.
pub open spec fn spec_close_to_equal(num1: i32, num2: i32) -> bool {
    -TOLERANCE < num1 - num2 < TOLERANCE
}

/// Whether the two scalars differ by less than the tolerance; on this grid,
/// whether they are equal.
#[verifier::when_used_as_spec(spec_close_to_equal)]
pub fn close_to_equal(num1: i32, num2: i32) -> (r: bool)
    ensures
        r == spec_close_to_equal(num1, num2),
        r == (num1 == num2),
{
    let d: i64 = num1 as i64 - num2 as i64;
    -(TOLERANCE as i64) < d && d < TOLERANCE as i64
}

/// The step of the integrator: a quarter of a time unit.
pub const DELTA_T_RUNGE_KUTTA: i32 = 250;

/// One half.
pub const HALF: i32 = 500;

/// The weight of the second and of the third sample: a fifth.
pub const LATER_WEIGHT: i32 = 200;

/// The slope that a sample of the two accelerations stands for: each
/// acceleration times the step.
pub open spec fn slope(sample: (Vector2, Vector2)) -> (Vector2, Vector2) {
    (sample.0.scale(DELTA_T_RUNGE_KUTTA), sample.1.scale(DELTA_T_RUNGE_KUTTA))
}

/// The state at which the sample after `sample` is taken. Each end moves
/// with half the slope for one step, and its velocity grows by half
/// the slope. Two positions that then overlap are pushed apart first.
#[verifier::opaque]
pub open spec fn half_step(
    sample: (Vector2, Vector2),
    pos_1: Vector2,
    pos_2: Vector2,
    vel_1: Vector2,
    vel_2: Vector2,
) -> (Vector2, Vector2, Vector2, Vector2) {
    let halved_1: Vector2 = slope(sample).0.scale(HALF);
    let halved_2: Vector2 = slope(sample).1.scale(HALF);
    let moved_1: Vector2 = pos_1.plus(halved_1.scale(DELTA_T_RUNGE_KUTTA));
    let moved_2: Vector2 = pos_2.plus(halved_2.scale(DELTA_T_RUNGE_KUTTA));
    match spec_temp_point_point_collision(moved_1, moved_2) {
        Some(push) => (
            moved_1.plus(push),
            moved_2.minus(push),
            vel_1.plus(halved_1),
            vel_2.plus(halved_2),
        ),
        None => (moved_1, moved_2, vel_1.plus(halved_1), vel_2.plus(halved_2)),
    }
}

/// The weighted sum of the slopes of three samples, for each end: the
/// first counts in full, the second and the third by a fifth.
#[verifier::opaque]
pub open spec fn blend(
    first: (Vector2, Vector2),
    second: (Vector2, Vector2),
    third: (Vector2, Vector2),
) -> (Vector2, Vector2) {
    (
        slope(first).0.plus(slope(second).0.scale(LATER_WEIGHT)).plus(
            slope(third).0.scale(LATER_WEIGHT),
        ),
        slope(first).1.plus(slope(second).1.scale(LATER_WEIGHT)).plus(
            slope(third).1.scale(LATER_WEIGHT),
        ),
    )
}

/// `first`, `second` and `third` are what `motion_func` may return at the
/// given state, at the half step after `first`, and at the half step after
/// `second`.
pub open spec fn sampled<F: Fn(Vector2, Vector2, Vector2, Vector2) -> (Vector2, Vector2)>(
    motion_func: &F,
    pos_1: Vector2,
    pos_2: Vector2,
    vel_1: Vector2,
    vel_2: Vector2,
    first: (Vector2, Vector2),
    second: (Vector2, Vector2),
    third: (Vector2, Vector2),
) -> bool {
    &&& motion_func.ensures((pos_1, pos_2, vel_1, vel_2), first)
    &&& motion_func.ensures(half_step(first, pos_1, pos_2, vel_1, vel_2), second)
    &&& motion_func.ensures(half_step(second, pos_1, pos_2, vel_1, vel_2), third)
}

/// Samples the accelerations of two coupled particles three times: at the
/// given state, and at two half steps that each follow the sample before.
/// Returns, for each particle, the blend of the three slopes.
pub fn runge_kutta_integration<F: Fn(Vector2, Vector2, Vector2, Vector2) -> (Vector2, Vector2)>(
    motion_func: &F,
    pos_1: Vector2,
    pos_2: Vector2,
    vel_1: Vector2,
    vel_2: Vector2,
) -> (r: (Vector2, Vector2))
    requires
        forall|a: Vector2, b: Vector2, c: Vector2, d: Vector2|
            #[trigger] motion_func.requires((a, b, c, d)),
    ensures
        exists|first: (Vector2, Vector2), second: (Vector2, Vector2), third: (Vector2, Vector2)|
            #[trigger] sampled(motion_func, pos_1, pos_2, vel_1, vel_2, first, second, third) && r
                == blend(first, second, third),
{
    let first: (Vector2, Vector2) = motion_func(pos_1, pos_2, vel_1, vel_2);
    let (p1, p2, v1, v2) = advance(first, pos_1, pos_2, vel_1, vel_2);
    let second: (Vector2, Vector2) = motion_func(p1, p2, v1, v2);
    let (q1, q2, w1, w2) = advance(second, pos_1, pos_2, vel_1, vel_2);
    let third: (Vector2, Vector2) = motion_func(q1, q2, w1, w2);
    let k1_1: Vector2 = first.0.scale(DELTA_T_RUNGE_KUTTA);
    let k1_2: Vector2 = first.1.scale(DELTA_T_RUNGE_KUTTA);
    let k2_1: Vector2 = second.0.scale(DELTA_T_RUNGE_KUTTA);
    let k2_2: Vector2 = second.1.scale(DELTA_T_RUNGE_KUTTA);
    let k3_1: Vector2 = third.0.scale(DELTA_T_RUNGE_KUTTA);
    let k3_2: Vector2 = third.1.scale(DELTA_T_RUNGE_KUTTA);
    let push_vec_1: Vector2 = k1_1.plus(k2_1.scale(LATER_WEIGHT)).plus(k3_1.scale(LATER_WEIGHT));
    let push_vec_2: Vector2 = k1_2.plus(k2_2.scale(LATER_WEIGHT)).plus(k3_2.scale(LATER_WEIGHT));
    proof {
        reveal(blend);
    }
    assert(sampled(motion_func, pos_1, pos_2, vel_1, vel_2, first, second, third));
    (push_vec_1, push_vec_2)
}

/// The state at which the sample after `sample` is taken.
fn advance(
    sample: (Vector2, Vector2),
    pos_1: Vector2,
    pos_2: Vector2,
    vel_1: Vector2,
    vel_2: Vector2,
) -> (r: (Vector2, Vector2, Vector2, Vector2))
    ensures
        r == half_step(sample, pos_1, pos_2, vel_1, vel_2),
{
    proof {
        reveal(half_step);
    }
    let halved_1: Vector2 = sample.0.scale(DELTA_T_RUNGE_KUTTA).scale(HALF);
    let halved_2: Vector2 = sample.1.scale(DELTA_T_RUNGE_KUTTA).scale(HALF);
    let moved_1: Vector2 = pos_1.plus(halved_1.scale(DELTA_T_RUNGE_KUTTA));
    let moved_2: Vector2 = pos_2.plus(halved_2.scale(DELTA_T_RUNGE_KUTTA));
    match handle_temp_point_point_collision(moved_1, moved_2) {
        Some(push) => (
            moved_1.plus(push),
            moved_2.minus(push),
            vel_1.plus(halved_1),
            vel_2.plus(halved_2),
        ),
        None => (moved_1, moved_2, vel_1.plus(halved_1), vel_2.plus(halved_2)),
    }
}

} // verus!
