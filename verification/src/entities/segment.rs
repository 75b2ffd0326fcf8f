//! Finite line segments: projection of a point and the upward ray test.

use crate::utils::fixed::{
    div_toward_zero, lemma_quotient_bounds, lemma_quotient_of_multiple, magnitude, quotient,
};
use crate::utils::vector::{dot2, norm2, Vector2};
use vstd::prelude::*;

verus! {

/// The segment from `p1` to `p2`.
#[derive(Clone, Copy, Debug, PartialEq, Eq, Structural)]
pub struct Segment {
    pub p1: Vector2,
    pub p2: Vector2,
}

/// `e * v / span` lies between zero and `e` when `v` lies between zero and
/// `span`.
proof fn lemma_fraction_of_extent(e: int, v: int, span: int)
    requires
        span > 0,
        0 <= v <= span,
    ensures
        e >= 0 ==> 0 <= quotient(e * v, span) <= e,
        e <= 0 ==> e <= quotient(e * v, span) <= 0,
        v == span ==> quotient(e * v, span) == e,
        v == 0 ==> quotient(e * v, span) == 0,
{
    let a: int = if e >= 0 { e } else { -e };
    assert(0 <= a * v <= a * span) by (nonlinear_arith)
        requires
            0 <= a,
            0 <= v <= span,
    ;
    assert(e >= 0 ==> e * v == a * v);
    if e < 0 {
        assert(-(e * v) == a * v) by (nonlinear_arith)
            requires
                a == -e,
        ;
    }
    assert(e < 0 && v > 0 ==> e * v < 0) by (nonlinear_arith);
    assert(v == 0 ==> e * v == 0) by (nonlinear_arith);
    vstd::arithmetic::div_mod::lemma_div_pos_is_pos(a * v, span);
    vstd::arithmetic::div_mod::lemma_div_is_ordered(a * v, a * span, span);
    vstd::arithmetic::div_mod::lemma_div_by_multiple(a, span);
    assert(a * span == span * a) by (nonlinear_arith);
    assert((a * v) / span <= a);
    if v == span {
        assert((a * v) / span == a);
    }
}

impl Segment {
    /// Horizontal extent, from `p1` to `p2`.
    pub open spec fn dx(self) -> int {
        self.p2.x - self.p1.x
    }

    /// Vertical extent, from `p1` to `p2`.
    pub open spec fn dy(self) -> int {
        self.p2.y - self.p1.y
    }

    /// The squared length of the segment.
    pub open spec fn span(self) -> int {
        norm2(self.dx(), self.dy())
    }

    /// The dot product of the segment's direction with the way from `p1` to
    /// `point`: the parameter of the perpendicular foot, times `span`.
    pub open spec fn reach(self, point: Vector2) -> int {
        dot2(self.dx(), self.dy(), point.x - self.p1.x, point.y - self.p1.y)
    }

    /// The perpendicular from `point` meets the line between the two ends:
    /// its parameter lies in `[0, 1]`.
    pub open spec fn covers(self, point: Vector2) -> bool {
        0 <= self.reach(point) <= self.span()
    }

    /// The perpendicular foot of `point`, rounded toward `p1` on the grid.
    /// On a segment of length zero it is the one point of the segment.
    pub open spec fn foot(self, point: Vector2) -> Vector2 {
        if self.span() == 0 {
            self.p1
        } else {
            Vector2 {
                x: (self.p1.x + quotient(self.dx() * self.reach(point), self.span())) as i32,
                y: (self.p1.y + quotient(self.dy() * self.reach(point), self.span())) as i32,
            }
        }
    }

    /// The line through the segment passes strictly beyond `point` in the
    /// direction of growing `y`, at `point`'s own `x`.
    pub open spec fn passes_beyond(self, point: Vector2) -> bool {
        let lhs: int = self.dy() * (point.x - self.p1.x);
        let rhs: int = (point.y - self.p1.y) * self.dx();
        if self.dx() > 0 {
            lhs > rhs
        } else {
            lhs < rhs
        }
    }

    /// `point.x` lies in the half-open range of the segment's `x` values.
    pub open spec fn spans_x(self, point: Vector2) -> bool {
        if self.p1.x <= self.p2.x {
            self.p1.x <= point.x < self.p2.x
        } else {
            self.p2.x <= point.x < self.p1.x
        }
    }

    /// The ray from `point` toward growing `y` crosses the segment.
    pub open spec fn ray_hits(self, point: Vector2) -> bool {
        self.spans_x(point) && self.passes_beyond(point)
    }

    /// The way from `p1` to `p2`, exactly.
    fn half_point(&self) -> (e: (i64, i64))
        ensures
            e.0 == self.dx(),
            e.1 == self.dy(),
    {
        (self.p2.x as i64 - self.p1.x as i64, self.p2.y as i64 - self.p1.y as i64)
    }

    /// The projection of `point` on the segment, if the perpendicular from
    /// `point` meets it. It always lies on the segment: on a segment of
    /// length zero the projection of every point is the one point of the
    /// segment.
    pub fn get_projection(&self, point: &Vector2) -> (r: Option<Vector2>)
        ensures
            r == if self.covers(*point) {
                Some(self.foot(*point))
            } else {
                None::<Vector2>
            },
    {
        let (ex, ey) = self.half_point();
        let fx: i64 = point.x as i64 - self.p1.x as i64;
        let fy: i64 = point.y as i64 - self.p1.y as i64;
        proof {
            lemma_products_fit(ex as int, ey as int, fx as int, fy as int);
        }
        let rect_area: i128 = ex as i128 * ex as i128 + ey as i128 * ey as i128;
        let value: i128 = ex as i128 * fx as i128 + ey as i128 * fy as i128;
        if value >= 0 && value <= rect_area {
            if rect_area == 0 {
                return Some(self.p1);
            }
            proof {
                assert(self.p1 != self.p2) by (nonlinear_arith)
                    requires
                        ex * ex + ey * ey > 0,
                        ex == self.p2.x - self.p1.x,
                        ey == self.p2.y - self.p1.y,
                {
                    assert(ex != 0 || ey != 0);
                }
            }
            if self.p1.x == self.p2.x {
                proof {
                    lemma_foot_of_upright(*self, *point);
                }
                return Some(Vector2 { x: self.p1.x, y: point.y });
            }
            if self.p1.y == self.p2.y {
                proof {
                    lemma_foot_of_level(*self, *point);
                }
                return Some(Vector2 { x: point.x, y: self.p1.y });
            }
            proof {
                lemma_scaled_fits(ex as int, value as int, rect_area as int);
                lemma_scaled_fits(ey as int, value as int, rect_area as int);
                lemma_fraction_of_extent(ex as int, value as int, rect_area as int);
                lemma_fraction_of_extent(ey as int, value as int, rect_area as int);
            }
            let ox: i128 = div_toward_zero(ex as i128 * value, rect_area);
            let oy: i128 = div_toward_zero(ey as i128 * value, rect_area);
            Some(Vector2 { x: (self.p1.x as i128 + ox) as i32, y: (self.p1.y as i128 + oy) as i32 })
        } else {
            None
        }
    }

    /// Whether the ray from `point` toward growing `y` crosses the segment.
    /// A segment with `p1.x == p2.x` spans no `x` at all and is never crossed.
    pub fn vertical_raycast(&self, point: &Vector2) -> (r: bool)
        ensures
            r == self.ray_hits(*point),
    {
        let lo: i32 = if self.p1.x <= self.p2.x { self.p1.x } else { self.p2.x };
        let hi: i32 = if self.p1.x <= self.p2.x { self.p2.x } else { self.p1.x };
        if !(lo <= point.x && point.x < hi) {
            return false;
        }
        let (ex, ey) = self.half_point();
        let fx: i64 = point.x as i64 - self.p1.x as i64;
        let fy: i64 = point.y as i64 - self.p1.y as i64;
        proof {
            lemma_products_fit(ex as int, ey as int, fx as int, fy as int);
        }
        let lhs: i128 = ey as i128 * fx as i128;
        let rhs: i128 = fy as i128 * ex as i128;
        if ex > 0 {
            lhs > rhs
        } else {
            lhs < rhs
        }
    }
}

/// `v` lies between `a` and `b`, whichever of the two is the smaller.
pub open spec fn between(v: int, a: int, b: int) -> bool {
    (a <= v <= b) || (b <= v <= a)
}

/// The projection of a point lies on the segment. For every segment and
/// every point that it covers, the foot lies between the two ends along
/// each axis, and each of its coordinates is less than one step of the grid
/// away from that of the exact foot, which stands at the fraction
/// `reach / span` of the way from `p1` to `p2`. On a segment of length zero
/// the foot is the one point of the segment.
pub proof fn lemma_projection_on_segment(s: Segment, point: Vector2)
    requires
        s.covers(point),
    ensures
        0 <= s.reach(point) <= s.span(),
        between(s.foot(point).x as int, s.p1.x as int, s.p2.x as int),
        between(s.foot(point).y as int, s.p1.y as int, s.p2.y as int),
        s.p1 == s.p2 ==> s.foot(point) == s.p1,
        s.p1 != s.p2 ==> {
            &&& 0 < s.span()
            &&& magnitude(s.span() * (s.foot(point).x - s.p1.x) - s.dx() * s.reach(point))
                < s.span()
            &&& magnitude(s.span() * (s.foot(point).y - s.p1.y) - s.dy() * s.reach(point))
                < s.span()
        },
{
    let dx: int = s.dx();
    let dy: int = s.dy();
    let span: int = s.span();
    let reach: int = s.reach(point);
    if s.p1 == s.p2 {
        assert(span == 0) by (nonlinear_arith)
            requires
                span == dx * dx + dy * dy,
                dx == 0,
                dy == 0,
        ;
    } else {
        assert(span > 0) by (nonlinear_arith)
            requires
                span == dx * dx + dy * dy,
                dx != 0 || dy != 0,
        ;
        lemma_fraction_of_extent(dx, reach, span);
        lemma_fraction_of_extent(dy, reach, span);
        lemma_quotient_bounds(dx * reach, span);
        lemma_quotient_bounds(dy * reach, span);
        let qx: int = quotient(dx * reach, span);
        let qy: int = quotient(dy * reach, span);
        assert(s.foot(point).x == s.p1.x + qx);
        assert(s.foot(point).y == s.p1.y + qy);
        assert(span * (s.p1.x + qx - s.p1.x) == span * qx);
        assert(span * (s.p1.y + qy - s.p1.y) == span * qy);
    }
}

/// Products of differences of `i32` values stay far inside `i128`.
pub proof fn lemma_products_fit(a: int, b: int, c: int, d: int)
    requires
        -0x1_0000_0000 < a < 0x1_0000_0000,
        -0x1_0000_0000 < b < 0x1_0000_0000,
        -0x1_0000_0000 < c < 0x1_0000_0000,
        -0x1_0000_0000 < d < 0x1_0000_0000,
    ensures
        -0x1_0000_0000_0000_0000 < a * a < 0x1_0000_0000_0000_0000,
        -0x1_0000_0000_0000_0000 < b * b < 0x1_0000_0000_0000_0000,
        -0x1_0000_0000_0000_0000 < a * c < 0x1_0000_0000_0000_0000,
        -0x1_0000_0000_0000_0000 < b * d < 0x1_0000_0000_0000_0000,
        -0x1_0000_0000_0000_0000 < b * c < 0x1_0000_0000_0000_0000,
        -0x1_0000_0000_0000_0000 < d * a < 0x1_0000_0000_0000_0000,
        -0x1_0000_0000_0000_0000 < a * d < 0x1_0000_0000_0000_0000,
        -0x1_0000_0000_0000_0000 < c * d < 0x1_0000_0000_0000_0000,
        -0x1_0000_0000_0000_0000 < c * c < 0x1_0000_0000_0000_0000,
        -0x1_0000_0000_0000_0000 < d * d < 0x1_0000_0000_0000_0000,
{
    lemma_product_fits(a, a);
    lemma_product_fits(b, b);
    lemma_product_fits(a, c);
    lemma_product_fits(b, d);
    lemma_product_fits(b, c);
    lemma_product_fits(d, a);
    lemma_product_fits(a, d);
    lemma_product_fits(c, d);
    lemma_product_fits(c, c);
    lemma_product_fits(d, d);
}

/// The product of two differences of `i32` values is below `2^64` in size.
proof fn lemma_product_fits(a: int, b: int)
    by (nonlinear_arith)
    requires
        -0x1_0000_0000 < a < 0x1_0000_0000,
        -0x1_0000_0000 < b < 0x1_0000_0000,
    ensures
        -0x1_0000_0000_0000_0000 < a * b < 0x1_0000_0000_0000_0000,
{
}

/// An extent times a parameter numerator stays inside `i128`.
proof fn lemma_scaled_fits(e: int, v: int, span: int)
    by (nonlinear_arith)
    requires
        -0x1_0000_0000 < e < 0x1_0000_0000,
        0 <= v <= span,
        span < 0x2_0000_0000_0000_0000,
    ensures
        -0x2_0000_0000_0000_0000_0000_0000 < e * v < 0x2_0000_0000_0000_0000_0000_0000,
{
}

/// On a segment with `p1.x == p2.x` and some height, the foot of a covered
/// point keeps the point's own `y`.
pub proof fn lemma_foot_of_upright(s: Segment, point: Vector2)
    requires
        s.p1.x == s.p2.x,
        s.p1.y != s.p2.y,
        s.covers(point),
    ensures
        s.foot(point) == (Vector2 { x: s.p1.x, y: point.y }),
{
    let dy: int = s.dy();
    let f: int = point.y - s.p1.y;
    assert(s.dx() * s.reach(point) == 0) by (nonlinear_arith)
        requires
            s.dx() == 0,
    ;
    assert(s.span() == dy * dy) by (nonlinear_arith)
        requires
            s.span() == s.dx() * s.dx() + dy * dy,
            s.dx() == 0,
    ;
    assert(dy * dy > 0) by (nonlinear_arith)
        requires
            dy != 0,
    ;
    assert(s.reach(point) == dy * f) by (nonlinear_arith)
        requires
            s.reach(point) == s.dx() * (point.x - s.p1.x) + dy * f,
            s.dx() == 0,
    ;
    lemma_quotient_of_multiple(f, dy * dy);
    assert(dy * (dy * f) == f * (dy * dy)) by (nonlinear_arith);
}

/// On a segment with `p1.y == p2.y` and some width, the foot of a covered
/// point keeps the point's own `x`.
pub proof fn lemma_foot_of_level(s: Segment, point: Vector2)
    requires
        s.p1.y == s.p2.y,
        s.p1.x != s.p2.x,
        s.covers(point),
    ensures
        s.foot(point) == (Vector2 { x: point.x, y: s.p1.y }),
{
    let dx: int = s.dx();
    let f: int = point.x - s.p1.x;
    assert(s.dy() * s.reach(point) == 0) by (nonlinear_arith)
        requires
            s.dy() == 0,
    ;
    assert(s.span() == dx * dx) by (nonlinear_arith)
        requires
            s.span() == dx * dx + s.dy() * s.dy(),
            s.dy() == 0,
    ;
    assert(dx * dx > 0) by (nonlinear_arith)
        requires
            dx != 0,
    ;
    assert(s.reach(point) == dx * f) by (nonlinear_arith)
        requires
            s.reach(point) == dx * f + s.dy() * (point.y - s.p1.y),
            s.dy() == 0,
    ;
    lemma_quotient_of_multiple(f, dx * dx);
    assert(dx * (dx * f) == f * (dx * dx)) by (nonlinear_arith);
}

} // verus!
