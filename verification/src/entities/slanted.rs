//! What a push across an edge of any direction leaves, up to the rounding
//! of the grid: the centre on the outward side of the edge, strictly
//! outside the polygon, and every foot nearly one radius away.
//!
//! Across a slanted edge the foot is rounded to the grid, and the
//! direction of the push is rounded twice. The statements here say how
//! little that takes: less than a hundredth of the radius and seven steps
//! of the grid.

use crate::entities::clearance::{
    collides_across, lemma_colliding_edge, lemma_push_across, modest, modest_scene,
};
use crate::entities::dot::{offset_to, resolve, Dot};
use crate::entities::parity::{
    convex_apart, convex_around, flipped, guide, inward, lemma_inward_is_a_turn,
    lemma_outward_is_outside, lemma_turn_flipped, side, turn,
};
use crate::entities::parity::lemma_vertices_lie_inward;
use crate::entities::polygon::{successor, Polygon};
use crate::entities::segment::{lemma_projection_on_segment, Segment};
use crate::utils::fixed::{
    floor_sqrt, lemma_floor_sqrt_below, lemma_floor_sqrt_exists, lemma_quotient_bounds,
    magnitude, quotient, UNIT,
};
use crate::utils::vector::{lemma_component_below_length, norm2, Vector2};
use vstd::prelude::*;

verus! {

/// A place within one step of the grid, along each axis, of the place at
/// the fraction `reach / span` of an extent `(dx, dy)` lies less than the
/// size of the extent, counted along the axes, off the line and off the
/// foot along it.
proof fn lemma_near_the_exact_foot(dx: int, dy: int, reach: int, u: int, v: int)
    requires
        dx != 0 || dy != 0,
        magnitude((dx * dx + dy * dy) * u - dx * reach) < dx * dx + dy * dy,
        magnitude((dx * dx + dy * dy) * v - dy * reach) < dx * dx + dy * dy,
    ensures
        magnitude(dx * v - dy * u) < magnitude(dx) + magnitude(dy),
        magnitude(dx * u + dy * v - reach) < magnitude(dx) + magnitude(dy),
{
    let span: int = dx * dx + dy * dy;
    let a: int = span * u - dx * reach;
    let b: int = span * v - dy * reach;
    let e1: int = magnitude(dx) + magnitude(dy);
    assert(span > 0) by (nonlinear_arith)
        requires
            span == dx * dx + dy * dy,
            dx != 0 || dy != 0,
    ;
    assert(dx * (span * v) == dx * b + dx * (dy * reach)) by (nonlinear_arith)
        requires
            b == span * v - dy * reach,
    ;
    assert(dy * (span * u) == dy * a + dy * (dx * reach)) by (nonlinear_arith)
        requires
            a == span * u - dx * reach,
    ;
    assert(dx * (dy * reach) == dy * (dx * reach)) by (nonlinear_arith);
    assert(span * (dx * v) == dx * (span * v)) by (nonlinear_arith);
    assert(span * (dy * u) == dy * (span * u)) by (nonlinear_arith);
    let third: int = dx * v;
    let fourth: int = dy * u;
    assert(span * (third - fourth) == span * third - span * fourth) by (nonlinear_arith);
    assert(span * (dx * v - dy * u) == dx * b - dy * a);
    assert(dx * (span * u) == dx * a + (dx * dx) * reach) by (nonlinear_arith)
        requires
            a == span * u - dx * reach,
    ;
    assert(dy * (span * v) == dy * b + (dy * dy) * reach) by (nonlinear_arith)
        requires
            b == span * v - dy * reach,
    ;
    assert(span * reach == (dx * dx) * reach + (dy * dy) * reach) by (nonlinear_arith)
        requires
            span == dx * dx + dy * dy,
    ;
    assert(span * (dx * u) == dx * (span * u)) by (nonlinear_arith);
    assert(span * (dy * v) == dy * (span * v)) by (nonlinear_arith);
    let first: int = dx * u;
    let second: int = dy * v;
    assert(span * (first + second - reach) == span * first + span * second - span * reach)
        by (nonlinear_arith);
    assert(span * (dx * u + dy * v - reach) == dx * a + dy * b);
    lemma_weighted_pair(dx, dy, a, b, span);
    lemma_weighted_pair(dx, -dy, b, a, span);
    assert((-dy) * a == -(dy * a)) by (nonlinear_arith);
    lemma_below_by_the_span(dx * v - dy * u, span, e1);
    lemma_below_by_the_span(dx * u + dy * v - reach, span, e1);
}

/// Two numbers smaller than `span`, weighted by `p` and `q`, stay below
/// the weights' sizes times `span`, by the sizes at least.
proof fn lemma_weighted_pair(p: int, q: int, a: int, b: int, span: int)
    by (nonlinear_arith)
    requires
        magnitude(a) < span,
        magnitude(b) < span,
    ensures
        magnitude(p * a + q * b) <= (magnitude(p) + magnitude(q)) * span - (magnitude(p)
            + magnitude(q)),
{
}

/// A number whose product with `span` stays below `bound * span` by
/// `bound` at least is smaller than `bound`.
proof fn lemma_below_by_the_span(t: int, span: int, bound: int)
    by (nonlinear_arith)
    requires
        span > 0,
        bound > 0,
        magnitude(span * t) <= bound * span - bound,
    ensures
        magnitude(t) < bound,
{
}

/// The foot of a covered point on a segment of some length lies close to
/// the line of the segment and close to the exact foot along it: the turn
/// of the foot, and the dot product of the direction with the way from the
/// point to the foot, are both smaller than the extent of the segment,
/// counted along the axes.
pub proof fn lemma_foot_near_the_line(edge: Segment, point: Vector2)
    requires
        edge.p1 != edge.p2,
        edge.covers(point),
    ensures
        magnitude(
            turn(
                edge.p1.x as int,
                edge.p1.y as int,
                edge.p2.x as int,
                edge.p2.y as int,
                edge.foot(point).x as int,
                edge.foot(point).y as int,
            ),
        ) < magnitude(edge.dx()) + magnitude(edge.dy()),
        magnitude(
            edge.dx() * (edge.foot(point).x - point.x) + edge.dy() * (edge.foot(point).y
                - point.y),
        ) < magnitude(edge.dx()) + magnitude(edge.dy()),
{
    lemma_projection_on_segment(edge, point);
    let foot: Vector2 = edge.foot(point);
    let (dx, dy) = (edge.dx(), edge.dy());
    let u: int = foot.x - edge.p1.x;
    let v: int = foot.y - edge.p1.y;
    let reach: int = edge.reach(point);
    assert(edge.span() == dx * dx + dy * dy);
    lemma_near_the_exact_foot(dx, dy, reach, u, v);
    assert(dx * (foot.x - point.x) + dy * (foot.y - point.y) == dx * u + dy * v - reach)
        by (nonlinear_arith)
        requires
            u == foot.x - edge.p1.x,
            v == foot.y - edge.p1.y,
            reach == dx * (point.x - edge.p1.x) + dy * (point.y - edge.p1.y),
    ;
}

/// One component of a vector, divided by the length of the vector rounded
/// down and scaled to `radius`, is the component times `radius` over the
/// length, up to the rounding of two divisions.
proof fn lemma_scaled_component(c: int, length: int, radius: int)
    requires
        length >= 1,
        -length <= c <= length,
        0 < radius <= 0x1000_0000,
    ensures
        -1000 <= quotient(c * 1000, length) <= 1000,
        -radius <= quotient(quotient(c * 1000, length) * radius, 1000) <= radius,
        magnitude(1000 * radius * c - 1000 * length * quotient(
            quotient(c * 1000, length) * radius,
            1000,
        )) <= length * (radius + 1000),
{
    let unit: int = quotient(c * 1000, length);
    let reach: int = quotient(unit * radius, 1000);
    lemma_quotient_bounds(c * 1000, length);
    lemma_quotient_bounds(unit * radius, 1000);
    let first: int = c * 1000 - length * unit;
    let second: int = unit * radius - 1000 * reach;
    assert(magnitude(first) < length);
    assert(magnitude(second) < 1000);
    assert(-1000 <= unit <= 1000) by (nonlinear_arith)
        requires
            magnitude(c * 1000 - length * unit) < length,
            -length <= c <= length,
            length >= 1,
    ;
    assert(-radius <= reach <= radius) by (nonlinear_arith)
        requires
            magnitude(unit * radius - 1000 * reach) < 1000,
            -1000 <= unit <= 1000,
            radius > 0,
    ;
    assert(1000 * radius * c - 1000 * length * reach == radius * first + length * second)
        by (nonlinear_arith)
        requires
            first == c * 1000 - length * unit,
            second == unit * radius - 1000 * reach,
    ;
    assert(magnitude(radius * first + length * second) <= length * (radius + 1000))
        by (nonlinear_arith)
        requires
            magnitude(first) < length,
            magnitude(second) < 1000,
            radius > 0,
            length >= 1,
    ;
}

/// The reach of a push: the offset, made one unit long and scaled to the
/// radius.
pub open spec fn reach_of(closest: Vector2, radius: i32) -> Vector2 {
    closest.normalize().scale(radius)
}

/// The reach is the offset times the radius over the length of the offset,
/// up to the rounding of the grid.
pub proof fn lemma_reach_near_the_offset(closest: Vector2, radius: i32)
    requires
        closest != Vector2::zero(),
        0 < radius <= 0x1000_0000,
    ensures
        floor_sqrt(norm2(closest.x as int, closest.y as int)) >= 1,
        -radius <= reach_of(closest, radius).x <= radius,
        -radius <= reach_of(closest, radius).y <= radius,
        magnitude(1000 * radius * closest.x - 1000 * floor_sqrt(
            norm2(closest.x as int, closest.y as int),
        ) * reach_of(closest, radius).x) <= floor_sqrt(
            norm2(closest.x as int, closest.y as int),
        ) * (radius + 1000),
        magnitude(1000 * radius * closest.y - 1000 * floor_sqrt(
            norm2(closest.x as int, closest.y as int),
        ) * reach_of(closest, radius).y) <= floor_sqrt(
            norm2(closest.x as int, closest.y as int),
        ) * (radius + 1000),
{
    let n: int = norm2(closest.x as int, closest.y as int);
    assert(n >= 0) by (nonlinear_arith)
        requires
            n == closest.x * closest.x + closest.y * closest.y,
    ;
    lemma_floor_sqrt_exists(n);
    let length: int = floor_sqrt(n);
    lemma_component_below_length(closest.x as int, closest.y as int, length);
    lemma_scaled_component(closest.x as int, length, radius as int);
    lemma_scaled_component(closest.y as int, length, radius as int);
    assert(closest.x * UNIT == closest.x * 1000 && closest.y * UNIT == closest.y * 1000);
}

/// Of two numbers that are not negative, the one with the smaller square
/// is the smaller.
proof fn lemma_square_order(a: int, b: int)
    by (nonlinear_arith)
    requires
        0 <= a,
        0 <= b,
        a * a <= b * b,
    ensures
        a <= b,
{
}

/// The squared lengths of two vectors multiply to the square of their
/// cross product plus the square of their dot product.
proof fn lemma_cross_and_dot(dx: int, dy: int, cx: int, cy: int)
    ensures
        (dx * dx + dy * dy) * (cx * cx + cy * cy) == (dx * cy - dy * cx) * (dx * cy - dy * cx) + (
        dx * cx + dy * cy) * (dx * cx + dy * cy),
{
    let p: int = dx * cx;
    let q: int = dy * cy;
    let s: int = dx * cy;
    let t: int = dy * cx;
    assert(s * t == p * q) by (nonlinear_arith)
        requires
            p == dx * cx,
            q == dy * cy,
            s == dx * cy,
            t == dy * cx,
    ;
    assert((s - t) * (s - t) == s * s - 2 * (s * t) + t * t) by (nonlinear_arith);
    assert((p + q) * (p + q) == p * p + 2 * (p * q) + q * q) by (nonlinear_arith);
    assert(p * p == (dx * dx) * (cx * cx)) by (nonlinear_arith)
        requires
            p == dx * cx,
    ;
    assert(q * q == (dy * dy) * (cy * cy)) by (nonlinear_arith)
        requires
            q == dy * cy,
    ;
    assert(s * s == (dx * dx) * (cy * cy)) by (nonlinear_arith)
        requires
            s == dx * cy,
    ;
    assert(t * t == (dy * dy) * (cx * cx)) by (nonlinear_arith)
        requires
            t == dy * cx,
    ;
    let a: int = dx * dx;
    let b: int = dy * dy;
    let c: int = cx * cx;
    let d: int = cy * cy;
    assert((a + b) * (c + d) == a * c + a * d + b * c + b * d) by (nonlinear_arith);
}

/// The length of an offset that leads nearly straight away from a line,
/// times the extent of the line counted along the axes, is at most twice
/// the cross product of the two, and twice the extent.
proof fn lemma_length_against_the_cross(dx: int, dy: int, cx: int, cy: int, length: int)
    requires
        0 <= length,
        length * length <= cx * cx + cy * cy,
        magnitude(dx * cx + dy * cy) <= magnitude(dx) + magnitude(dy),
    ensures
        length * (magnitude(dx) + magnitude(dy)) <= 2 * (magnitude(dx * cy - dy * cx) + magnitude(
            dx,
        ) + magnitude(dy)),
{
    let e1: int = magnitude(dx) + magnitude(dy);
    let span: int = dx * dx + dy * dy;
    let n: int = cx * cx + cy * cy;
    let cross: int = dx * cy - dy * cx;
    let along: int = dx * cx + dy * cy;
    let size: int = magnitude(cross);
    lemma_cross_and_dot(dx, dy, cx, cy);
    assert(span * n == cross * cross + along * along);
    assert(e1 * e1 <= 2 * span) by (nonlinear_arith)
        requires
            e1 == magnitude(dx) + magnitude(dy),
            span == dx * dx + dy * dy,
    ;
    assert(along * along <= e1 * e1) by (nonlinear_arith)
        requires
            magnitude(along) <= e1,
    ;
    assert(cross * cross == size * size) by (nonlinear_arith)
        requires
            size == magnitude(cross),
    ;
    let ll: int = length * length;
    let ee: int = e1 * e1;
    assert(ll * ee <= n * (2 * span)) by (nonlinear_arith)
        requires
            0 <= ll <= n,
            0 <= ee <= 2 * span,
    ;
    assert(n * (2 * span) == 2 * (span * n)) by (nonlinear_arith);
    assert((length * e1) * (length * e1) == ll * ee) by (nonlinear_arith)
        requires
            ll == length * length,
            ee == e1 * e1,
    ;
    let bound: int = 2 * (size + e1);
    assert(bound * bound == 4 * (size * size) + 8 * (size * e1) + 4 * ee) by (nonlinear_arith)
        requires
            bound == 2 * (size + e1),
            ee == e1 * e1,
    ;
    assert(size * e1 >= 0) by (nonlinear_arith)
        requires
            size >= 0,
            e1 >= 0,
    ;
    assert(size * size >= 0) by (nonlinear_arith);
    assert(length * e1 >= 0) by (nonlinear_arith)
        requires
            length >= 0,
            e1 >= 0,
    ;
    lemma_square_order(length * e1, bound);
}

/// An offset that leads nearly straight away from a line has a cross
/// product with the line of half its length times the extent of the line,
/// or more.
proof fn lemma_cross_covers_the_length(dx: int, dy: int, cx: int, cy: int, length: int)
    requires
        dx != 0 || dy != 0,
        2 <= length,
        length * length <= cx * cx + cy * cy,
        magnitude(dx * cx + dy * cy) <= magnitude(dx) + magnitude(dy),
    ensures
        2 * magnitude(dx * cy - dy * cx) >= length * (magnitude(dx) + magnitude(dy)),
        (dx * dx + dy * dy) * (length * length) <= magnitude(dx * cy - dy * cx) * magnitude(
            dx * cy - dy * cx,
        ) + (magnitude(dx) + magnitude(dy)) * (magnitude(dx) + magnitude(dy)),
{
    let e1: int = magnitude(dx) + magnitude(dy);
    let span: int = dx * dx + dy * dy;
    let n: int = cx * cx + cy * cy;
    let cross: int = dx * cy - dy * cx;
    let along: int = dx * cx + dy * cy;
    let size: int = magnitude(cross);
    let product: int = length * e1;
    let ll: int = length * length;
    let ee: int = e1 * e1;
    let aa: int = size * size;
    lemma_cross_and_dot(dx, dy, cx, cy);
    assert(span * n == cross * cross + along * along);
    assert(cross * cross == aa) by (nonlinear_arith)
        requires
            size == magnitude(cross),
            aa == size * size,
    ;
    assert(along * along <= ee) by (nonlinear_arith)
        requires
            magnitude(along) <= e1,
            ee == e1 * e1,
    ;
    assert(span > 0 && ee <= 2 * span && ee >= 1) by (nonlinear_arith)
        requires
            e1 == magnitude(dx) + magnitude(dy),
            span == dx * dx + dy * dy,
            ee == e1 * e1,
            dx != 0 || dy != 0,
    ;
    assert(span * ll <= span * n) by (nonlinear_arith)
        requires
            ll <= n,
            span >= 0,
    ;
    let k: int = span * ll;
    assert(k <= aa + ee);
    assert(ll >= 4) by (nonlinear_arith)
        requires
            ll == length * length,
            length >= 2,
    ;
    assert(2 * k >= ee * ll) by (nonlinear_arith)
        requires
            k == span * ll,
            ee <= 2 * span,
            ll >= 0,
    ;
    assert(ee * ll >= 4 * ee) by (nonlinear_arith)
        requires
            ll >= 4,
            ee >= 0,
    ;
    assert(product * product == ee * ll) by (nonlinear_arith)
        requires
            product == length * e1,
            ee == e1 * e1,
            ll == length * length,
    ;
    assert((2 * size) * (2 * size) == 4 * aa) by (nonlinear_arith)
        requires
            aa == size * size,
    ;
    assert(product >= 0) by (nonlinear_arith)
        requires
            product == length * e1,
            length >= 0,
            e1 >= 0,
    ;
    assert(product * product <= (2 * size) * (2 * size));
    lemma_square_order(product, 2 * size);
}

/// Two numbers of size `bound` at most, weighted by `p` and `q`, have a
/// size of the weights' sizes times `bound` at most.
proof fn lemma_weighted_bound(p: int, q: int, a: int, b: int, bound: int)
    by (nonlinear_arith)
    requires
        magnitude(a) <= bound,
        magnitude(b) <= bound,
    ensures
        magnitude(p * a + q * b) <= (magnitude(p) + magnitude(q)) * bound,
{
}

/// The sum that decides on which side a push ends. With the centre held
/// twice the extent of the edge or more off its line (the extent counted
/// along the axes), and a radius of one unit or more, the bounds of the
/// rounding leave the sum negative.
proof fn lemma_rounding_leaves_the_sign(
    held: int,
    cross_reach_scaled: int,
    product: int,
    radius: int,
    extent: int,
)
    requires
        extent >= 1,
        radius >= 1000,
        held >= 2 * extent,
        0 <= product <= 2 * (held + 2 * extent),
        cross_reach_scaled <= 1000 * radius * (extent - held) + product * (radius + 1000),
    ensures
        1000 * product + cross_reach_scaled < 0,
{
    let rh: int = radius * held;
    let re: int = radius * extent;
    let pr: int = product * radius;
    assert(1000 * radius * (extent - held) == 1000 * re - 1000 * rh) by (nonlinear_arith)
        requires
            rh == radius * held,
            re == radius * extent,
    ;
    assert(product * (radius + 1000) == pr + 1000 * product) by (nonlinear_arith)
        requires
            pr == product * radius,
    ;
    assert(pr <= 2 * rh + 4 * re) by (nonlinear_arith)
        requires
            pr == product * radius,
            rh == radius * held,
            re == radius * extent,
            0 <= product <= 2 * (held + 2 * extent),
            radius >= 0,
    ;
    assert(rh >= 2 * re) by (nonlinear_arith)
        requires
            rh == radius * held,
            re == radius * extent,
            held >= 2 * extent,
            radius >= 0,
    ;
    assert(re >= 1000 * extent) by (nonlinear_arith)
        requires
            re == radius * extent,
            radius >= 1000,
            extent >= 0,
    ;
    assert(rh >= 1000 * held) by (nonlinear_arith)
        requires
            rh == radius * held,
            radius >= 1000,
            held >= 0,
    ;
}

/// The turn of a place that lies a reach beyond a foot, from the turn of
/// the foot: the turn is an affine function of the place.
proof fn lemma_turn_of_a_sum(gx: int, gy: int, u: int, v: int, rx: int, ry: int)
    by (nonlinear_arith)
    ensures
        gx * (v + ry) - gy * (u + rx) == (gx * v - gy * u) + (gx * ry - gy * rx),
        gx * (v - ry) - gy * (u - rx) == (gx * v - gy * u) - (gx * ry - gy * rx),
{
}

/// The cross product of an extent with the reach, from the cross product
/// with the offset and what the rounding took.
proof fn lemma_cross_of_the_reach(
    gx: int,
    gy: int,
    cx: int,
    cy: int,
    rx: int,
    ry: int,
    length: int,
    radius: int,
)
    ensures
        1000 * radius * (gx * cy - gy * cx) - 1000 * length * (gx * ry - gy * rx) == gx * (1000
            * radius * cy - 1000 * length * ry) + (-gy) * (1000 * radius * cx - 1000 * length
            * rx),
{
    let a: int = 1000 * radius;
    let b: int = 1000 * length;
    assert(a * (gx * cy - gy * cx) == gx * (a * cy) - gy * (a * cx)) by (nonlinear_arith);
    assert(b * (gx * ry - gy * rx) == gx * (b * ry) - gy * (b * rx)) by (nonlinear_arith);
    assert(gx * (a * cy - b * ry) == gx * (a * cy) - gx * (b * ry)) by (nonlinear_arith);
    assert((-gy) * (a * cx - b * rx) == -(gy * (a * cx)) + gy * (b * rx)) by (nonlinear_arith);
    assert(1000 * radius * cy == a * cy && 1000 * length * ry == b * ry && 1000 * radius * cx
        == a * cx && 1000 * length * rx == b * rx) by (nonlinear_arith)
        requires
            a == 1000 * radius,
            b == 1000 * length,
    ;
}

/// The arithmetic of a push across a line, in whole numbers. The foot
/// `(fx, fy)` lies near the line through `(px, py)` with extent
/// `(gx, gy)`; the centre `(cx, cy)` lies off the line by twice the extent
/// or more, on the positive side where `inside` holds and on the negative
/// side where not; the reach `(rx, ry)` is the offset scaled to the radius
/// up to rounding. Then a reach beyond the foot for a centre inside, and a
/// reach back from the foot for a centre outside, lies on the negative
/// side of the line.
proof fn lemma_push_crosses_the_line(
    g: (int, int),
    p: (int, int),
    centre: (int, int),
    foot: (int, int),
    reach: (int, int),
    length: int,
    radius: int,
    inside: bool,
)
    requires
        g.0 != 0 || g.1 != 0,
        radius >= 1000,
        length >= 1,
        length * length <= (foot.0 - centre.0) * (foot.0 - centre.0) + (foot.1 - centre.1) * (
        foot.1 - centre.1),
        magnitude(g.0 * (foot.1 - p.1) - g.1 * (foot.0 - p.0)) < magnitude(g.0) + magnitude(g.1),
        magnitude(g.0 * (foot.0 - centre.0) + g.1 * (foot.1 - centre.1)) < magnitude(g.0)
            + magnitude(g.1),
        inside ==> g.0 * (centre.1 - p.1) - g.1 * (centre.0 - p.0) >= 2 * (magnitude(g.0)
            + magnitude(g.1)),
        !inside ==> g.0 * (centre.1 - p.1) - g.1 * (centre.0 - p.0) <= -2 * (magnitude(g.0)
            + magnitude(g.1)),
        magnitude(1000 * radius * (foot.0 - centre.0) - 1000 * length * reach.0) <= length * (
        radius + 1000),
        magnitude(1000 * radius * (foot.1 - centre.1) - 1000 * length * reach.1) <= length * (
        radius + 1000),
    ensures
        inside ==> g.0 * (foot.1 + reach.1 - p.1) - g.1 * (foot.0 + reach.0 - p.0) < 0,
        !inside ==> g.0 * (foot.1 - reach.1 - p.1) - g.1 * (foot.0 - reach.0 - p.0) < 0,
        inside ==> 1000 * length * -(g.0 * (foot.1 + reach.1 - p.1) - g.1 * (foot.0 + reach.0
            - p.0)) >= 1000 * radius * ((g.0 * (centre.1 - p.1) - g.1 * (centre.0 - p.0)) - (
        magnitude(g.0) + magnitude(g.1))) - length * (magnitude(g.0) + magnitude(g.1)) * (radius
            + 2000),
        !inside ==> 1000 * length * -(g.0 * (foot.1 - reach.1 - p.1) - g.1 * (foot.0 - reach.0
            - p.0)) >= 1000 * radius * (-(g.0 * (centre.1 - p.1) - g.1 * (centre.0 - p.0)) - (
        magnitude(g.0) + magnitude(g.1))) - length * (magnitude(g.0) + magnitude(g.1)) * (radius
            + 2000),
        inside ==> 1000 * length * -(g.0 * (foot.1 + reach.1 - p.1) - g.1 * (foot.0 + reach.0
            - p.0)) <= 1000 * radius * ((g.0 * (centre.1 - p.1) - g.1 * (centre.0 - p.0)) + (
        magnitude(g.0) + magnitude(g.1))) + length * (magnitude(g.0) + magnitude(g.1)) * (radius
            + 2000),
        !inside ==> 1000 * length * -(g.0 * (foot.1 - reach.1 - p.1) - g.1 * (foot.0 - reach.0
            - p.0)) <= 1000 * radius * (-(g.0 * (centre.1 - p.1) - g.1 * (centre.0 - p.0)) + (
        magnitude(g.0) + magnitude(g.1))) + length * (magnitude(g.0) + magnitude(g.1)) * (radius
            + 2000),
{
    let (gx, gy) = g;
    let e1: int = magnitude(gx) + magnitude(gy);
    let cx: int = foot.0 - centre.0;
    let cy: int = foot.1 - centre.1;
    let foot_turn: int = gx * (foot.1 - p.1) - gy * (foot.0 - p.0);
    let centre_turn: int = gx * (centre.1 - p.1) - gy * (centre.0 - p.0);
    let cross: int = gx * cy - gy * cx;
    let cross_reach: int = gx * reach.1 - gy * reach.0;
    let product: int = length * e1;
    let held: int = if inside {
        centre_turn
    } else {
        -centre_turn
    };
    // the offset leads from the centre to the foot
    assert(cross == foot_turn - centre_turn) by (nonlinear_arith)
        requires
            cross == gx * cy - gy * cx,
            cx == foot.0 - centre.0,
            cy == foot.1 - centre.1,
            foot_turn == gx * (foot.1 - p.1) - gy * (foot.0 - p.0),
            centre_turn == gx * (centre.1 - p.1) - gy * (centre.0 - p.0),
    ;
    // the length of the offset against its cross product with the edge
    lemma_length_against_the_cross(gx, gy, cx, cy, length);
    assert(product >= 0) by (nonlinear_arith)
        requires
            product == length * e1,
            length >= 0,
            e1 >= 0,
    ;
    assert(magnitude(cross) <= held + e1);
    // what the rounding of the reach took
    let bound: int = length * (radius + 1000);
    let dx: int = 1000 * radius * cx - 1000 * length * reach.0;
    let dy: int = 1000 * radius * cy - 1000 * length * reach.1;
    lemma_weighted_bound(gx, -gy, dy, dx, bound);
    lemma_cross_of_the_reach(gx, gy, cx, cy, reach.0, reach.1, length, radius);
    let taken: int = 1000 * radius * cross - 1000 * length * cross_reach;
    assert(taken == gx * dy + (-gy) * dx);
    assert(magnitude(-gy) == magnitude(gy));
    assert(e1 * bound == product * (radius + 1000)) by (nonlinear_arith)
        requires
            bound == length * (radius + 1000),
            product == length * e1,
    ;
    assert(magnitude(taken) <= product * (radius + 1000));
    assert(1000 * radius * cross == 1000 * (radius * cross)) by (nonlinear_arith);
    assert(1000 * length * cross_reach == 1000 * (length * cross_reach)) by (nonlinear_arith);
    assert(1000 * length * foot_turn <= 1000 * product) by (nonlinear_arith)
        requires
            foot_turn < e1,
            length >= 1,
            product == length * e1,
    ;
    assert(-(1000 * length * foot_turn) <= 1000 * product) by (nonlinear_arith)
        requires
            -foot_turn < e1,
            length >= 1,
            product == length * e1,
    ;
    assert(1000 * radius * (held - e1) == 1000 * radius * held - 1000 * radius * e1)
        by (nonlinear_arith);
    assert(1000 * radius * (held + e1) == 1000 * radius * held + 1000 * radius * e1)
        by (nonlinear_arith);
    assert(length * e1 * (radius + 2000) == product * (radius + 1000) + 1000 * product)
        by (nonlinear_arith)
        requires
            product == length * e1,
    ;
    if inside {
        let scaled: int = 1000 * length * cross_reach;
        assert(1000 * radius * cross <= 1000 * radius * (e1 - held)) by (nonlinear_arith)
            requires
                cross <= e1 - held,
                radius >= 0,
        ;
        assert(scaled <= 1000 * radius * (e1 - held) + product * (radius + 1000));
        lemma_rounding_leaves_the_sign(held, scaled, product, radius, e1);
        lemma_turn_of_a_sum(gx, gy, foot.0 - p.0, foot.1 - p.1, reach.0, reach.1);
        let after_turn: int = gx * (foot.1 + reach.1 - p.1) - gy * (foot.0 + reach.0 - p.0);
        assert(after_turn == foot_turn + cross_reach);
        assert(1000 * length * after_turn == 1000 * length * foot_turn + scaled)
            by (nonlinear_arith)
            requires
                after_turn == foot_turn + cross_reach,
                scaled == 1000 * length * cross_reach,
        ;
        assert(after_turn < 0) by (nonlinear_arith)
            requires
                1000 * length * after_turn < 0,
                length >= 1,
        ;
        assert(1000 * radius * cross == 1000 * radius * foot_turn - 1000 * radius * held)
            by (nonlinear_arith)
            requires
                cross == foot_turn - held,
        ;
        assert(1000 * radius * foot_turn <= 1000 * radius * e1) by (nonlinear_arith)
            requires
                foot_turn <= e1,
                radius >= 0,
        ;
        assert(-(1000 * radius * foot_turn) <= 1000 * radius * e1) by (nonlinear_arith)
            requires
                -foot_turn <= e1,
                radius >= 0,
        ;
        assert(1000 * length * -after_turn == -(1000 * length * after_turn))
            by (nonlinear_arith);
    } else {
        let scaled: int = -(1000 * length * cross_reach);
        assert(-(1000 * radius * cross) <= 1000 * radius * (e1 - held)) by (nonlinear_arith)
            requires
                -cross <= e1 - held,
                radius >= 0,
        ;
        assert(scaled <= 1000 * radius * (e1 - held) + product * (radius + 1000));
        lemma_rounding_leaves_the_sign(held, scaled, product, radius, e1);
        lemma_turn_of_a_sum(gx, gy, foot.0 - p.0, foot.1 - p.1, reach.0, reach.1);
        let after_turn: int = gx * (foot.1 - reach.1 - p.1) - gy * (foot.0 - reach.0 - p.0);
        assert(after_turn == foot_turn - cross_reach);
        assert(1000 * length * after_turn == 1000 * length * foot_turn + scaled)
            by (nonlinear_arith)
            requires
                after_turn == foot_turn - cross_reach,
                scaled == -(1000 * length * cross_reach),
        ;
        assert(after_turn < 0) by (nonlinear_arith)
            requires
                1000 * length * after_turn < 0,
                length >= 1,
        ;
        assert(1000 * radius * cross == 1000 * radius * foot_turn + 1000 * radius * held)
            by (nonlinear_arith)
            requires
                cross == foot_turn + held,
        ;
        assert(-(1000 * radius * foot_turn) <= 1000 * radius * e1) by (nonlinear_arith)
            requires
                -foot_turn <= e1,
                radius >= 0,
        ;
        assert(1000 * radius * foot_turn <= 1000 * radius * e1) by (nonlinear_arith)
            requires
                foot_turn <= e1,
                radius >= 0,
        ;
        assert(1000 * length * -after_turn == -(1000 * length * after_turn))
            by (nonlinear_arith);
    }
}

/// A push across a segment of some length, seen from a guide: the segment
/// itself or the segment taken the other way. A centre that the segment
/// covers, off its line by twice its extent or more, is pushed to the
/// negative side of the guide: from the positive side beyond the foot,
/// from the negative side back from the foot.
proof fn lemma_push_across_a_segment(dot: Dot, edge: Segment, g: Segment, inside: bool)
    requires
        edge.p1 != edge.p2,
        edge.covers(dot.pos),
        g == edge || g == flipped(edge),
        !dot.freeze,
        UNIT <= dot.radius <= 0x1000_0000,
        modest(dot.pos.x as int),
        modest(dot.pos.y as int),
        modest(edge.p1.x as int),
        modest(edge.p1.y as int),
        modest(edge.p2.x as int),
        modest(edge.p2.y as int),
        inside ==> turn(
            g.p1.x as int,
            g.p1.y as int,
            g.p2.x as int,
            g.p2.y as int,
            dot.pos.x as int,
            dot.pos.y as int,
        ) >= 2 * (magnitude(edge.dx()) + magnitude(edge.dy())),
        !inside ==> turn(
            g.p1.x as int,
            g.p1.y as int,
            g.p2.x as int,
            g.p2.y as int,
            dot.pos.x as int,
            dot.pos.y as int,
        ) <= -2 * (magnitude(edge.dx()) + magnitude(edge.dy())) && offset_to(
            edge,
            dot.pos,
        ).length() < dot.radius,
    ensures
        resolve(offset_to(edge, dot.pos), dot.radius, inside) is Some,
        ({
            let after: Dot = dot.spec_push(
                resolve(offset_to(edge, dot.pos), dot.radius, inside)->0,
            );
            let closest: Vector2 = offset_to(edge, dot.pos);
            let length: int = floor_sqrt(norm2(closest.x as int, closest.y as int));
            let e1: int = magnitude(g.dx()) + magnitude(g.dy());
            let after_turn: int = turn(
                g.p1.x as int,
                g.p1.y as int,
                g.p2.x as int,
                g.p2.y as int,
                after.pos.x as int,
                after.pos.y as int,
            );
            let held: int = magnitude(
                turn(
                    g.p1.x as int,
                    g.p1.y as int,
                    g.p2.x as int,
                    g.p2.y as int,
                    dot.pos.x as int,
                    dot.pos.y as int,
                ),
            );
            &&& after_turn < 0
            &&& after.radius == dot.radius
            &&& -0x2000_0000 <= after.pos.x <= 0x2000_0000
            &&& -0x2000_0000 <= after.pos.y <= 0x2000_0000
            &&& 1 <= length
            &&& length * length <= norm2(closest.x as int, closest.y as int)
            &&& magnitude(g.dx() * closest.x + g.dy() * closest.y) < e1
            &&& norm2(closest.x as int, closest.y as int) < (length + 1) * (length + 1)
            &&& held >= magnitude(g.dx() * closest.y - g.dy() * closest.x) - e1
            &&& held <= magnitude(g.dx() * closest.y - g.dy() * closest.x) + e1
            &&& 1000 * length * -after_turn >= 1000 * dot.radius * (held - e1) - length * e1 * (
            dot.radius + 2000)
            &&& 1000 * length * -after_turn <= 1000 * dot.radius * (held + e1) + length * e1 * (
            dot.radius + 2000)
        }),
{
    let foot: Vector2 = edge.foot(dot.pos);
    let closest: Vector2 = offset_to(edge, dot.pos);
    let e1: int = magnitude(edge.dx()) + magnitude(edge.dy());
    lemma_projection_on_segment(edge, dot.pos);
    lemma_foot_near_the_line(edge, dot.pos);
    assert(closest.x == foot.x - dot.pos.x && closest.y == foot.y - dot.pos.y);
    let (gx, gy) = (g.dx(), g.dy());
    let (px, py) = (g.p1.x as int, g.p1.y as int);
    let foot_turn: int = gx * (foot.y - py) - gy * (foot.x - px);
    let along: int = gx * closest.x + gy * closest.y;
    if g == edge {
    } else {
        lemma_turn_flipped(
            edge.p1.x as int,
            edge.p1.y as int,
            edge.p2.x as int,
            edge.p2.y as int,
            foot.x as int,
            foot.y as int,
        );
        assert(along == -(edge.dx() * closest.x + edge.dy() * closest.y)) by (nonlinear_arith)
            requires
                along == gx * closest.x + gy * closest.y,
                gx == -edge.dx(),
                gy == -edge.dy(),
        ;
    }
    assert(magnitude(foot_turn) < e1);
    assert(magnitude(along) < e1);
    assert(magnitude(gx) + magnitude(gy) == e1);
    // the offset is not zero: the centre is off the line, the foot near it
    if closest == Vector2::zero() {
        assert(foot.x == dot.pos.x && foot.y == dot.pos.y);
    }
    assert(closest != Vector2::zero());
    lemma_reach_near_the_offset(closest, dot.radius);
    let n: int = norm2(closest.x as int, closest.y as int);
    assert(n >= 0) by (nonlinear_arith)
        requires
            n == closest.x * closest.x + closest.y * closest.y,
    ;
    lemma_floor_sqrt_exists(n);
    let length: int = floor_sqrt(n);
    let reach: Vector2 = reach_of(closest, dot.radius);
    lemma_push_crosses_the_line(
        (gx, gy),
        (px, py),
        (dot.pos.x as int, dot.pos.y as int),
        (foot.x as int, foot.y as int),
        (reach.x as int, reach.y as int),
        length,
        dot.radius as int,
        inside,
    );
    let push: Vector2 = if inside {
        closest.plus(reach)
    } else {
        closest.minus(reach)
    };
    assert(resolve(closest, dot.radius, inside) == Some(push));
    let after: Dot = dot.spec_push(push);
    if inside {
        assert(after.pos.x == foot.x + reach.x && after.pos.y == foot.y + reach.y);
    } else {
        assert(after.pos.x == foot.x - reach.x && after.pos.y == foot.y - reach.y);
    }
    let centre_turn: int = gx * (dot.pos.y - py) - gy * (dot.pos.x - px);
    assert(gx * closest.y - gy * closest.x == foot_turn - centre_turn) by (nonlinear_arith)
        requires
            closest.x == foot.x - dot.pos.x,
            closest.y == foot.y - dot.pos.y,
            foot_turn == gx * (foot.y - py) - gy * (foot.x - px),
            centre_turn == gx * (dot.pos.y - py) - gy * (dot.pos.x - px),
    ;
}

/// A centre whose foot on a segment is two steps of the grid away or more
/// lies off the line of the segment by the length of the offset less
/// three steps, times half the extent of the segment, or more.
pub proof fn lemma_long_offset_is_off_the_line(edge: Segment, point: Vector2)
    requires
        edge.p1 != edge.p2,
        edge.covers(point),
        modest(point.x as int),
        modest(point.y as int),
        modest(edge.p1.x as int),
        modest(edge.p1.y as int),
        modest(edge.p2.x as int),
        modest(edge.p2.y as int),
        offset_to(edge, point).length() >= 2,
    ensures
        2 * magnitude(
            turn(
                edge.p1.x as int,
                edge.p1.y as int,
                edge.p2.x as int,
                edge.p2.y as int,
                point.x as int,
                point.y as int,
            ),
        ) >= (offset_to(edge, point).length() - 2) * (magnitude(edge.dx()) + magnitude(
            edge.dy(),
        )),
{
    let foot: Vector2 = edge.foot(point);
    let closest: Vector2 = offset_to(edge, point);
    let (gx, gy) = (edge.dx(), edge.dy());
    let e1: int = magnitude(gx) + magnitude(gy);
    lemma_projection_on_segment(edge, point);
    lemma_foot_near_the_line(edge, point);
    assert(closest.x == foot.x - point.x && closest.y == foot.y - point.y);
    let n: int = norm2(closest.x as int, closest.y as int);
    assert(0 <= n < 0x8000_0000 * 0x8000_0000) by (nonlinear_arith)
        requires
            n == closest.x * closest.x + closest.y * closest.y,
            -0x2000_0000 <= closest.x <= 0x2000_0000,
            -0x2000_0000 <= closest.y <= 0x2000_0000,
    ;
    lemma_floor_sqrt_exists(n);
    lemma_floor_sqrt_below(n, 0x7fff_ffff);
    let length: int = floor_sqrt(n);
    assert(closest.length() == length);
    lemma_cross_covers_the_length(gx, gy, closest.x as int, closest.y as int, length);
    let foot_turn: int = gx * (foot.y - edge.p1.y) - gy * (foot.x - edge.p1.x);
    let centre_turn: int = gx * (point.y - edge.p1.y) - gy * (point.x - edge.p1.x);
    assert(gx * closest.y - gy * closest.x == foot_turn - centre_turn) by (nonlinear_arith)
        requires
            closest.x == foot.x - point.x,
            closest.y == foot.y - point.y,
            foot_turn == gx * (foot.y - edge.p1.y) - gy * (foot.x - edge.p1.x),
            centre_turn == gx * (point.y - edge.p1.y) - gy * (point.x - edge.p1.x),
    ;
    assert((length - 2) * e1 == length * e1 - 2 * e1) by (nonlinear_arith);
}

/// The centre lies off the line of edge `k` by twice the extent of the
/// edge or more, the extent counted along the axes: between two and three
/// steps of the grid, whatever the direction of the edge.
pub open spec fn off_the_line(polygon: &Polygon, k: int, point: Vector2) -> bool {
    magnitude(side(polygon@, k, point.x as int, point.y as int)) >= 2 * (magnitude(
        polygon.edge(k).dx(),
    ) + magnitude(polygon.edge(k).dy()))
}

/// A push leaves the centre outside, whatever the direction of the edge.
/// A particle of a radius of one unit or more that is not frozen and
/// collides with a convex polygon, wound either way, across an edge whose
/// line its centre is off by three steps of the grid or more, is pushed;
/// after the push its centre lies on the outward side of that edge,
/// strictly outside the polygon, and is told to be outside.
pub proof fn lemma_push_leaves_outside(dot: Dot, polygon: &Polygon, k: int)
    requires
        polygon.well_formed(),
        collides_across(dot, polygon, k),
        off_the_line(polygon, k, dot.pos),
        !dot.freeze,
        modest_scene(dot, polygon),
        dot.radius >= UNIT,
    ensures
        dot.spec_push_vector(polygon) is Some,
        ({
            let after: Dot = dot.spec_push(dot.spec_push_vector(polygon)->0);
            &&& inward(polygon@, k, after.pos.x as int, after.pos.y as int) < 0
            &&& convex_apart(polygon@, after.pos)
            &&& !after.center_inside(polygon)
        }),
{
    let ring: Seq<(i32, i32)> = polygon@;
    let edge: Segment = polygon.edge(k);
    let inside: bool = convex_around(ring, dot.pos);
    lemma_colliding_edge(dot, polygon, k);
    lemma_push_across(dot, polygon, k);
    lemma_inward_is_a_turn(ring, k, dot.pos.x as int, dot.pos.y as int);
    lemma_push_across_a_segment(dot, edge, guide(ring, k), inside);
    let after: Dot = dot.spec_push(resolve(offset_to(edge, dot.pos), dot.radius, inside)->0);
    lemma_inward_is_a_turn(ring, k, after.pos.x as int, after.pos.y as int);
    lemma_outward_is_outside(ring, after.pos, k);
}

/// A foot on a segment whose two ends lie on the positive side of a line,
/// or on it, lies less than the extent of the line off that side: the
/// rounding of the foot takes less than one step of the grid along each
/// axis.
proof fn lemma_inward_foot_arith(
    g: (int, int),
    turns: (int, int, int),
    d: (int, int),
    reach: int,
    u: int,
    v: int,
)
    requires
        g.0 != 0 || g.1 != 0,
        d.0 != 0 || d.1 != 0,
        0 <= reach <= d.0 * d.0 + d.1 * d.1,
        magnitude((d.0 * d.0 + d.1 * d.1) * u - d.0 * reach) < d.0 * d.0 + d.1 * d.1,
        magnitude((d.0 * d.0 + d.1 * d.1) * v - d.1 * reach) < d.0 * d.0 + d.1 * d.1,
        turns.0 >= 0,
        turns.1 >= 0,
        turns.1 == turns.0 + (g.0 * d.1 - g.1 * d.0),
        turns.2 == turns.0 + (g.0 * v - g.1 * u),
    ensures
        turns.2 > -(magnitude(g.0) + magnitude(g.1)),
{
    let (gx, gy) = g;
    let (dx, dy) = d;
    let span: int = dx * dx + dy * dy;
    let a: int = span * u - dx * reach;
    let b: int = span * v - dy * reach;
    let e1: int = magnitude(gx) + magnitude(gy);
    let (t1, t2, tf) = turns;
    assert(span > 0) by (nonlinear_arith)
        requires
            span == dx * dx + dy * dy,
            dx != 0 || dy != 0,
    ;
    assert(gx * (span * v) == gx * b + gx * (dy * reach)) by (nonlinear_arith)
        requires
            b == span * v - dy * reach,
    ;
    assert(gy * (span * u) == gy * a + gy * (dx * reach)) by (nonlinear_arith)
        requires
            a == span * u - dx * reach,
    ;
    assert(span * (gx * v - gy * u) == gx * (span * v) - gy * (span * u)) by (nonlinear_arith);
    assert(reach * (gx * dy - gy * dx) == gx * (dy * reach) - gy * (dx * reach))
        by (nonlinear_arith);
    assert(span * tf == span * t1 + span * (gx * v - gy * u)) by (nonlinear_arith)
        requires
            tf == t1 + (gx * v - gy * u),
    ;
    assert(reach * t2 == reach * t1 + reach * (gx * dy - gy * dx)) by (nonlinear_arith)
        requires
            t2 == t1 + (gx * dy - gy * dx),
    ;
    assert((span - reach) * t1 == span * t1 - reach * t1) by (nonlinear_arith);
    assert(span * tf == (span - reach) * t1 + reach * t2 + (gx * b - gy * a));
    assert((span - reach) * t1 >= 0 && reach * t2 >= 0) by (nonlinear_arith)
        requires
            0 <= reach <= span,
            t1 >= 0,
            t2 >= 0,
    ;
    lemma_weighted_pair(gx, -gy, b, a, span);
    assert((-gy) * a == -(gy * a)) by (nonlinear_arith);
    assert(span * tf >= -(e1 * span - e1));
    assert(tf > -e1) by (nonlinear_arith)
        requires
            span * tf >= -(e1 * span - e1),
            span > 0,
            e1 > 0,
    ;
}

/// After a push across a line, every place that lies inward of the line,
/// up to the extent of the line, is nearly one radius away. The push has
/// left the centre outward by the radius times the extent up to rounding
/// (the bound on `after_turn`); the offset of the push was `length` long,
/// one unit or more, with the cross product `cross` against the line; the
/// way `w` from the new centre to the place has a cross product of
/// `-after_turn - extent` or more against the line. Then the way is longer
/// than the radius less a hundredth of it and six steps.
proof fn lemma_far_from_the_line(
    g: (int, int),
    c: (int, int),
    w: (int, int),
    length: int,
    radius: int,
    held: int,
    after_turn: int,
)
    requires
        g.0 != 0 || g.1 != 0,
        radius >= 1000,
        length >= 1000,
        length * length <= c.0 * c.0 + c.1 * c.1,
        magnitude(g.0 * c.0 + g.1 * c.1) < magnitude(g.0) + magnitude(g.1),
        held >= magnitude(g.0 * c.1 - g.1 * c.0) - (magnitude(g.0) + magnitude(g.1)),
        1000 * length * -after_turn >= 1000 * radius * (held - (magnitude(g.0) + magnitude(g.1)))
            - length * (magnitude(g.0) + magnitude(g.1)) * (radius + 2000),
        g.0 * w.1 - g.1 * w.0 >= -after_turn - (magnitude(g.0) + magnitude(g.1)),
    ensures
        10_000 * (w.0 * w.0 + w.1 * w.1) >= (99 * radius - 600) * (99 * radius - 600),
{
    let (gx, gy) = g;
    let e1: int = magnitude(gx) + magnitude(gy);
    let span: int = gx * gx + gy * gy;
    let n: int = c.0 * c.0 + c.1 * c.1;
    let cross: int = gx * c.1 - gy * c.0;
    let along: int = gx * c.0 + gy * c.1;
    let size: int = magnitude(cross);
    let product: int = length * e1;
    let y: int = gx * w.1 - gy * w.0;
    let ll: int = length * length;
    let ee: int = e1 * e1;
    let aa: int = size * size;
    // the offset against the line
    lemma_cross_covers_the_length(gx, gy, c.0, c.1, length);
    assert(aa == magnitude(gx * c.1 - gy * c.0) * magnitude(gx * c.1 - gy * c.0));
    assert(ee == (magnitude(gx) + magnitude(gy)) * (magnitude(gx) + magnitude(gy)));
    assert(span > 0) by (nonlinear_arith)
        requires
            span == gx * gx + gy * gy,
            gx != 0 || gy != 0,
    ;
    let k: int = span * ll;
    assert(k <= aa + ee);
    assert(ll >= 1_000_000) by (nonlinear_arith)
        requires
            ll == length * length,
            length >= 1000,
    ;
    assert(product <= 2 * size);
    assert(product >= 1000 * e1) by (nonlinear_arith)
        requires
            product == length * e1,
            length >= 1000,
            e1 >= 0,
    ;
    // the bound on the cross product of the way
    let ra: int = radius * size;
    let re: int = radius * e1;
    let rp: int = radius * product;
    assert(rp <= 2 * ra && 1000 * re <= rp) by (nonlinear_arith)
        requires
            ra == radius * size,
            re == radius * e1,
            rp == radius * product,
            product <= 2 * size,
            1000 * e1 <= product,
            radius >= 0,
    ;
    assert(1000 * radius * (held - e1) >= 1000 * ra - 2000 * re) by (nonlinear_arith)
        requires
            held >= size - e1,
            ra == radius * size,
            re == radius * e1,
            radius >= 0,
    ;
    assert(length * e1 * (radius + 2000) == rp + 2000 * product) by (nonlinear_arith)
        requires
            product == length * e1,
            rp == radius * product,
    ;
    assert(1000 * length * y >= 1000 * length * -after_turn - 1000 * product)
        by (nonlinear_arith)
        requires
            y >= -after_turn - e1,
            product == length * e1,
            length >= 0,
    ;
    let scaled: int = 1000 * length * y;
    let goal: int = 10 * ((99 * radius - 600) * (size + e1));
    assert((99 * radius - 600) * (size + e1) == 99 * ra - 600 * size + 99 * re - 600 * e1)
        by (nonlinear_arith)
        requires
            ra == radius * size,
            re == radius * e1,
    ;
    assert(scaled >= goal);
    assert(goal >= 0) by (nonlinear_arith)
        requires
            goal == 10 * ((99 * radius - 600) * (size + e1)),
            radius >= 1000,
            size >= 0,
            e1 >= 0,
    ;
    // squared, and against the squared length of the way
    let r2: int = (99 * radius - 600) * (99 * radius - 600);
    let nw: int = w.0 * w.0 + w.1 * w.1;
    assert(scaled * scaled >= goal * goal) by (nonlinear_arith)
        requires
            scaled >= goal,
            goal >= 0,
    ;
    let sum: int = size + e1;
    assert(goal * goal == 100 * (r2 * (sum * sum))) by (nonlinear_arith)
        requires
            goal == 10 * ((99 * radius - 600) * sum),
            r2 == (99 * radius - 600) * (99 * radius - 600),
    ;
    assert(sum * sum >= aa + ee) by (nonlinear_arith)
        requires
            sum == size + e1,
            aa == size * size,
            ee == e1 * e1,
            size >= 0,
            e1 >= 0,
    ;
    assert(r2 >= 0) by (nonlinear_arith)
        requires
            r2 == (99 * radius - 600) * (99 * radius - 600),
    ;
    assert(r2 * (sum * sum) >= r2 * k) by (nonlinear_arith)
        requires
            sum * sum >= k,
            r2 >= 0,
    ;
    lemma_cross_and_dot(gx, gy, w.0, w.1);
    let dot_w: int = gx * w.0 + gy * w.1;
    assert(span * nw == y * y + dot_w * dot_w);
    assert(dot_w * dot_w >= 0) by (nonlinear_arith);
    assert(scaled * scaled == 1_000_000 * (ll * (y * y))) by (nonlinear_arith)
        requires
            scaled == 1000 * length * y,
            ll == length * length,
    ;
    assert(ll * (y * y) <= ll * (span * nw)) by (nonlinear_arith)
        requires
            y * y <= span * nw,
            ll >= 0,
    ;
    assert(ll * (span * nw) == k * nw) by (nonlinear_arith)
        requires
            k == span * ll,
    ;
    assert(1_000_000 * (k * nw) >= 100 * (r2 * k));
    assert(k > 0) by (nonlinear_arith)
        requires
            k == span * ll,
            span > 0,
            ll > 0,
    ;
    assert(10_000 * nw >= r2) by (nonlinear_arith)
        requires
            1_000_000 * (k * nw) >= 100 * (r2 * k),
            k > 0,
    ;
}

/// The way from a centre beyond a line to its foot on a segment that lies
/// inward of the line is nearly one radius long: the radius less a
/// hundredth of it and seven steps of the grid, or more.
proof fn lemma_foot_far_beyond_a_line(
    g: Segment,
    closest: Vector2,
    radius: i32,
    held: int,
    centre: Vector2,
    other: Segment,
)
    requires
        g.p1 != g.p2,
        1000 <= radius <= 0x1000_0000,
        floor_sqrt(norm2(closest.x as int, closest.y as int)) >= 1000,
        floor_sqrt(norm2(closest.x as int, closest.y as int)) * floor_sqrt(
            norm2(closest.x as int, closest.y as int),
        ) <= norm2(closest.x as int, closest.y as int),
        magnitude(g.dx() * closest.x + g.dy() * closest.y) < magnitude(g.dx()) + magnitude(
            g.dy(),
        ),
        held >= magnitude(g.dx() * closest.y - g.dy() * closest.x) - (magnitude(g.dx())
            + magnitude(g.dy())),
        1000 * floor_sqrt(norm2(closest.x as int, closest.y as int)) * -turn(
            g.p1.x as int,
            g.p1.y as int,
            g.p2.x as int,
            g.p2.y as int,
            centre.x as int,
            centre.y as int,
        ) >= 1000 * radius * (held - (magnitude(g.dx()) + magnitude(g.dy()))) - floor_sqrt(
            norm2(closest.x as int, closest.y as int),
        ) * (magnitude(g.dx()) + magnitude(g.dy())) * (radius + 2000),
        other.p1 != other.p2,
        other.covers(centre),
        turn(
            g.p1.x as int,
            g.p1.y as int,
            g.p2.x as int,
            g.p2.y as int,
            other.p1.x as int,
            other.p1.y as int,
        ) >= 0,
        turn(
            g.p1.x as int,
            g.p1.y as int,
            g.p2.x as int,
            g.p2.y as int,
            other.p2.x as int,
            other.p2.y as int,
        ) >= 0,
        modest(other.p1.x as int),
        modest(other.p1.y as int),
        modest(other.p2.x as int),
        modest(other.p2.y as int),
        -0x2000_0000 <= centre.x <= 0x2000_0000,
        -0x2000_0000 <= centre.y <= 0x2000_0000,
    ensures
        100 * offset_to(other, centre).length() >= 99 * radius - 700,
{
    let (gx, gy) = (g.dx(), g.dy());
    let (px, py) = (g.p1.x as int, g.p1.y as int);
    let foot: Vector2 = other.foot(centre);
    let way: Vector2 = offset_to(other, centre);
    let length: int = floor_sqrt(norm2(closest.x as int, closest.y as int));
    lemma_projection_on_segment(other, centre);
    assert(way.x == foot.x - centre.x && way.y == foot.y - centre.y);
    let t1: int = gx * (other.p1.y - py) - gy * (other.p1.x - px);
    let t2: int = gx * (other.p2.y - py) - gy * (other.p2.x - px);
    let tf: int = gx * (foot.y - py) - gy * (foot.x - px);
    let after_turn: int = gx * (centre.y - py) - gy * (centre.x - px);
    assert(t2 == t1 + (gx * other.dy() - gy * other.dx())) by (nonlinear_arith)
        requires
            t1 == gx * (other.p1.y - py) - gy * (other.p1.x - px),
            t2 == gx * (other.p2.y - py) - gy * (other.p2.x - px),
            other.dx() == other.p2.x - other.p1.x,
            other.dy() == other.p2.y - other.p1.y,
    ;
    assert(tf == t1 + (gx * (foot.y - other.p1.y) - gy * (foot.x - other.p1.x)))
        by (nonlinear_arith)
        requires
            t1 == gx * (other.p1.y - py) - gy * (other.p1.x - px),
            tf == gx * (foot.y - py) - gy * (foot.x - px),
    ;
    assert(other.span() == other.dx() * other.dx() + other.dy() * other.dy());
    lemma_inward_foot_arith(
        (gx, gy),
        (t1, t2, tf),
        (other.dx(), other.dy()),
        other.reach(centre),
        foot.x - other.p1.x,
        foot.y - other.p1.y,
    );
    assert(gx * way.y - gy * way.x == tf - after_turn) by (nonlinear_arith)
        requires
            way.x == foot.x - centre.x,
            way.y == foot.y - centre.y,
            tf == gx * (foot.y - py) - gy * (foot.x - px),
            after_turn == gx * (centre.y - py) - gy * (centre.x - px),
    ;
    lemma_far_from_the_line(
        (gx, gy),
        (closest.x as int, closest.y as int),
        (way.x as int, way.y as int),
        length,
        radius as int,
        held,
        after_turn,
    );
    let n: int = norm2(way.x as int, way.y as int);
    assert(n >= 0) by (nonlinear_arith)
        requires
            n == way.x * way.x + way.y * way.y,
    ;
    lemma_floor_sqrt_exists(n);
    let root: int = floor_sqrt(n);
    lemma_component_below_length(way.x as int, way.y as int, root);
    let above: int = 100 * (root + 1);
    let below: int = 99 * radius - 600;
    assert(above * above == 10_000 * ((root + 1) * (root + 1))) by (nonlinear_arith)
        requires
            above == 100 * (root + 1),
    ;
    if above < below {
        assert(above * above <= below * below) by (nonlinear_arith)
            requires
                0 <= above < below,
        ;
    }
    assert(n < 0x8000_0000 * 0x8000_0000) by (nonlinear_arith)
        requires
            n == way.x * way.x + way.y * way.y,
            -0x3000_0000 <= way.x <= 0x3000_0000,
            -0x3000_0000 <= way.y <= 0x3000_0000,
    ;
    lemma_floor_sqrt_below(n, 0x7fff_ffff);
}

/// After a push, every foot is nearly one radius away, whatever the
/// direction of the edge. A particle of a radius of one unit or more that
/// is not frozen and collides with a convex polygon, wound either way,
/// across an edge on which its foot is one unit away or more, is pushed;
/// after the push its centre lies strictly outside the polygon, and every
/// foot of its centre on an edge of the polygon is at least the radius
/// less a hundredth of it and seven steps of the grid away. What is
/// missing of the radius is what the rounding of the foot and of the
/// direction takes.
pub proof fn lemma_feet_after_a_push(dot: Dot, polygon: &Polygon, k: int, j: int)
    requires
        polygon.well_formed(),
        collides_across(dot, polygon, k),
        offset_to(polygon.edge(k), dot.pos).length() >= UNIT,
        !dot.freeze,
        modest_scene(dot, polygon),
        dot.radius >= UNIT,
        0 <= j < polygon@.len(),
        polygon.edge(j).covers(dot.spec_push(dot.spec_push_vector(polygon)->0).pos),
    ensures
        dot.spec_push_vector(polygon) is Some,
        off_the_line(polygon, k, dot.pos),
        convex_apart(polygon@, dot.spec_push(dot.spec_push_vector(polygon)->0).pos),
        100 * offset_to(
            polygon.edge(j),
            dot.spec_push(dot.spec_push_vector(polygon)->0).pos,
        ).length() >= 99 * dot.radius - 700,
{
    let ring: Seq<(i32, i32)> = polygon@;
    let n: int = ring.len() as int;
    let edge: Segment = polygon.edge(k);
    let other: Segment = polygon.edge(j);
    let sj: int = successor(j, n);
    let inside: bool = convex_around(ring, dot.pos);
    let closest: Vector2 = offset_to(edge, dot.pos);
    lemma_colliding_edge(dot, polygon, k);
    lemma_long_offset_is_off_the_line(edge, dot.pos);
    assert(off_the_line(polygon, k, dot.pos)) by (nonlinear_arith)
        requires
            2 * magnitude(side(polygon@, k, dot.pos.x as int, dot.pos.y as int)) >= (offset_to(
                edge,
                dot.pos,
            ).length() - 2) * (magnitude(edge.dx()) + magnitude(edge.dy())),
            offset_to(edge, dot.pos).length() >= 1000,
            off_the_line(polygon, k, dot.pos) == (magnitude(
                side(polygon@, k, dot.pos.x as int, dot.pos.y as int),
            ) >= 2 * (magnitude(edge.dx()) + magnitude(edge.dy()))),
    ;
    lemma_push_leaves_outside(dot, polygon, k);
    lemma_push_across(dot, polygon, k);
    lemma_inward_is_a_turn(ring, k, dot.pos.x as int, dot.pos.y as int);
    lemma_push_across_a_segment(dot, edge, guide(ring, k), inside);
    let after: Dot = dot.spec_push(resolve(closest, dot.radius, inside)->0);
    lemma_vertices_lie_inward(ring, k, j);
    lemma_vertices_lie_inward(ring, k, sj);
    lemma_vertices_lie_inward(ring, j, j);
    lemma_vertices_lie_inward(ring, k, k);
    lemma_inward_is_a_turn(ring, k, ring[j].0 as int, ring[j].1 as int);
    lemma_inward_is_a_turn(ring, k, ring[sj].0 as int, ring[sj].1 as int);
    assert(modest(ring[j].0 as int) && modest(ring[sj].0 as int));
    let whole: int = floor_sqrt(norm2(closest.x as int, closest.y as int));
    assert(whole >= 1000);
    let held: int = magnitude(inward(ring, k, dot.pos.x as int, dot.pos.y as int));
    lemma_foot_far_beyond_a_line(guide(ring, k), closest, dot.radius, held, after.pos, other);
}

/// How far beyond the line a push ends, in whole numbers: the turn after
/// the push, squared, lies between the squares of the radius less or more
/// a hundredth of it and seven steps, times the squared extent of the
/// line. The turn is the distance from the line times the length of the
/// line.
proof fn lemma_turn_near_the_radius(
    g: (int, int),
    c: (int, int),
    length: int,
    radius: int,
    held: int,
    after_turn: int,
)
    requires
        g.0 != 0 || g.1 != 0,
        radius >= 1000,
        length >= 1000,
        length * length <= c.0 * c.0 + c.1 * c.1,
        c.0 * c.0 + c.1 * c.1 < (length + 1) * (length + 1),
        magnitude(g.0 * c.0 + g.1 * c.1) < magnitude(g.0) + magnitude(g.1),
        held >= magnitude(g.0 * c.1 - g.1 * c.0) - (magnitude(g.0) + magnitude(g.1)),
        held <= magnitude(g.0 * c.1 - g.1 * c.0) + (magnitude(g.0) + magnitude(g.1)),
        after_turn < 0,
        1000 * length * -after_turn >= 1000 * radius * (held - (magnitude(g.0) + magnitude(g.1)))
            - length * (magnitude(g.0) + magnitude(g.1)) * (radius + 2000),
        1000 * length * -after_turn <= 1000 * radius * (held + (magnitude(g.0) + magnitude(g.1)))
            + length * (magnitude(g.0) + magnitude(g.1)) * (radius + 2000),
    ensures
        10_000 * (after_turn * after_turn) >= (99 * radius - 600) * (99 * radius - 600) * (g.0
            * g.0 + g.1 * g.1),
        10_000 * (after_turn * after_turn) <= (101 * radius + 700) * (101 * radius + 700) * (g.0
            * g.0 + g.1 * g.1),
{
    let (gx, gy) = g;
    let e1: int = magnitude(gx) + magnitude(gy);
    let span: int = gx * gx + gy * gy;
    let n: int = c.0 * c.0 + c.1 * c.1;
    let cross: int = gx * c.1 - gy * c.0;
    let size: int = magnitude(cross);
    let product: int = length * e1;
    let ll: int = length * length;
    let ee: int = e1 * e1;
    let aa: int = size * size;
    let k: int = span * ll;
    let scaled: int = 1000 * length * -after_turn;
    lemma_cross_covers_the_length(gx, gy, c.0, c.1, length);
    assert(aa == magnitude(gx * c.1 - gy * c.0) * magnitude(gx * c.1 - gy * c.0));
    assert(ee == (magnitude(gx) + magnitude(gy)) * (magnitude(gx) + magnitude(gy)));
    assert(span > 0) by (nonlinear_arith)
        requires
            span == gx * gx + gy * gy,
            gx != 0 || gy != 0,
    ;
    assert(k <= aa + ee);
    assert(product <= 2 * size);
    assert(product >= 1000 * e1) by (nonlinear_arith)
        requires
            product == length * e1,
            length >= 1000,
            e1 >= 0,
    ;
    let ra: int = radius * size;
    let re: int = radius * e1;
    let rp: int = radius * product;
    assert(rp <= 2 * ra && 1000 * re <= rp) by (nonlinear_arith)
        requires
            ra == radius * size,
            re == radius * e1,
            rp == radius * product,
            product <= 2 * size,
            1000 * e1 <= product,
            radius >= 0,
    ;
    assert(1000 * radius * (held - e1) >= 1000 * ra - 2000 * re) by (nonlinear_arith)
        requires
            held >= size - e1,
            ra == radius * size,
            re == radius * e1,
            radius >= 0,
    ;
    assert(1000 * radius * (held + e1) <= 1000 * ra + 2000 * re) by (nonlinear_arith)
        requires
            held <= size + e1,
            ra == radius * size,
            re == radius * e1,
            radius >= 0,
    ;
    assert(length * e1 * (radius + 2000) == rp + 2000 * product) by (nonlinear_arith)
        requires
            product == length * e1,
            rp == radius * product,
    ;
    assert(scaled * scaled == 1_000_000 * (ll * (after_turn * after_turn)))
        by (nonlinear_arith)
        requires
            scaled == 1000 * length * -after_turn,
            ll == length * length,
    ;
    assert(ll > 0) by (nonlinear_arith)
        requires
            ll == length * length,
            length >= 1000,
    ;
    let tt: int = after_turn * after_turn;
    // from below
    let low: int = (99 * radius - 600) * (99 * radius - 600);
    let sum: int = size + e1;
    let goal: int = 10 * ((99 * radius - 600) * sum);
    assert((99 * radius - 600) * sum == 99 * ra - 600 * size + 99 * re - 600 * e1)
        by (nonlinear_arith)
        requires
            sum == size + e1,
            ra == radius * size,
            re == radius * e1,
    ;
    assert(scaled >= goal);
    assert(goal >= 0) by (nonlinear_arith)
        requires
            goal == 10 * ((99 * radius - 600) * sum),
            radius >= 1000,
            sum >= 0,
    ;
    assert(scaled * scaled >= goal * goal) by (nonlinear_arith)
        requires
            scaled >= goal,
            goal >= 0,
    ;
    assert(goal * goal == 100 * (low * (sum * sum))) by (nonlinear_arith)
        requires
            goal == 10 * ((99 * radius - 600) * sum),
            low == (99 * radius - 600) * (99 * radius - 600),
    ;
    assert(sum * sum >= aa + ee) by (nonlinear_arith)
        requires
            sum == size + e1,
            aa == size * size,
            ee == e1 * e1,
            size >= 0,
            e1 >= 0,
    ;
    assert(low >= 0) by (nonlinear_arith)
        requires
            low == (99 * radius - 600) * (99 * radius - 600),
    ;
    assert(low * (sum * sum) >= low * k) by (nonlinear_arith)
        requires
            sum * sum >= k,
            low >= 0,
    ;
    assert(low * k == (low * span) * ll) by (nonlinear_arith)
        requires
            k == span * ll,
    ;
    assert(10_000 * tt >= low * span) by (nonlinear_arith)
        requires
            1_000_000 * (ll * tt) >= 100 * ((low * span) * ll),
            ll > 0,
    ;
    // from above
    let high: int = (101 * radius + 700) * (101 * radius + 700);
    let top: int = (1006 * radius + 4000) * size;
    assert(top == 1006 * ra + 4000 * size) by (nonlinear_arith)
        requires
            top == (1006 * radius + 4000) * size,
            ra == radius * size,
    ;
    assert(0 <= scaled <= top);
    assert(scaled * scaled <= top * top) by (nonlinear_arith)
        requires
            0 <= scaled <= top,
    ;
    lemma_cross_and_dot(gx, gy, c.0, c.1);
    let along: int = gx * c.0 + gy * c.1;
    assert(along * along >= 0) by (nonlinear_arith);
    assert(cross * cross == aa) by (nonlinear_arith)
        requires
            size == magnitude(cross),
            aa == size * size,
    ;
    let next: int = (length + 1) * (length + 1);
    assert(aa <= span * n);
    assert(span * n <= span * next) by (nonlinear_arith)
        requires
            n <= next,
            span >= 0,
    ;
    let weight: int = (1006 * radius + 4000) * (1006 * radius + 4000);
    assert(top * top == weight * aa) by (nonlinear_arith)
        requires
            top == (1006 * radius + 4000) * size,
            weight == (1006 * radius + 4000) * (1006 * radius + 4000),
            aa == size * size,
    ;
    assert(weight >= 0) by (nonlinear_arith)
        requires
            weight == (1006 * radius + 4000) * (1006 * radius + 4000),
    ;
    assert(weight * aa <= weight * (span * next)) by (nonlinear_arith)
        requires
            aa <= span * next,
            weight >= 0,
    ;
    // (1006 r + 4000) (L + 1) <= 10 (101 r + 700) L
    let left: int = (1006 * radius + 4000) * (length + 1);
    let right: int = 10 * ((101 * radius + 700) * length);
    let rl: int = radius * length;
    assert(left == 1006 * rl + 4000 * length + 1006 * radius + 4000) by (nonlinear_arith)
        requires
            left == (1006 * radius + 4000) * (length + 1),
            rl == radius * length,
    ;
    assert(right == 1010 * rl + 7000 * length) by (nonlinear_arith)
        requires
            right == 10 * ((101 * radius + 700) * length),
            rl == radius * length,
    ;
    assert(rl >= 1000 * radius) by (nonlinear_arith)
        requires
            rl == radius * length,
            length >= 1000,
            radius >= 0,
    ;
    assert(0 <= left <= right);
    assert(left * left <= right * right) by (nonlinear_arith)
        requires
            0 <= left <= right,
    ;
    assert(left * left == weight * next) by (nonlinear_arith)
        requires
            left == (1006 * radius + 4000) * (length + 1),
            weight == (1006 * radius + 4000) * (1006 * radius + 4000),
            next == (length + 1) * (length + 1),
    ;
    assert(right * right == 100 * (high * ll)) by (nonlinear_arith)
        requires
            right == 10 * ((101 * radius + 700) * length),
            high == (101 * radius + 700) * (101 * radius + 700),
            ll == length * length,
    ;
    assert(weight * (span * next) == span * (weight * next)) by (nonlinear_arith);
    assert(span * (weight * next) <= span * (100 * (high * ll))) by (nonlinear_arith)
        requires
            weight * next <= 100 * (high * ll),
            span >= 0,
    ;
    assert(span * (100 * (high * ll)) == 100 * ((high * span) * ll)) by (nonlinear_arith);
    assert(10_000 * tt <= high * span) by (nonlinear_arith)
        requires
            1_000_000 * (ll * tt) <= 100 * ((high * span) * ll),
            ll > 0,
    ;
}

/// A push ends one radius beyond the line of the edge, up to rounding. A
/// particle of a radius of one unit or more that is not frozen and
/// collides with a convex polygon, wound either way, across an edge on
/// which its foot is one unit away or more, is pushed; after the push its
/// centre lies outward of the line of that edge, and its distance from the
/// line differs from the radius by less than a hundredth of the radius
/// and seven steps of the grid. The side is the distance from the line
/// times the length of the edge, so the statement is made of its square
/// and the squared length of the edge.
pub proof fn lemma_pushed_by_the_radius(dot: Dot, polygon: &Polygon, k: int)
    requires
        polygon.well_formed(),
        collides_across(dot, polygon, k),
        offset_to(polygon.edge(k), dot.pos).length() >= UNIT,
        !dot.freeze,
        modest_scene(dot, polygon),
        dot.radius >= UNIT,
    ensures
        dot.spec_push_vector(polygon) is Some,
        ({
            let after: Dot = dot.spec_push(dot.spec_push_vector(polygon)->0);
            let turned: int = inward(polygon@, k, after.pos.x as int, after.pos.y as int);
            &&& turned < 0
            &&& 10_000 * (turned * turned) >= (99 * dot.radius - 600) * (99 * dot.radius - 600)
                * polygon.edge(k).span()
            &&& 10_000 * (turned * turned) <= (101 * dot.radius + 700) * (101 * dot.radius + 700)
                * polygon.edge(k).span()
        }),
{
    let ring: Seq<(i32, i32)> = polygon@;
    let edge: Segment = polygon.edge(k);
    let inside: bool = convex_around(ring, dot.pos);
    let closest: Vector2 = offset_to(edge, dot.pos);
    let g: Segment = guide(ring, k);
    lemma_colliding_edge(dot, polygon, k);
    lemma_long_offset_is_off_the_line(edge, dot.pos);
    assert(off_the_line(polygon, k, dot.pos)) by (nonlinear_arith)
        requires
            2 * magnitude(side(polygon@, k, dot.pos.x as int, dot.pos.y as int)) >= (offset_to(
                edge,
                dot.pos,
            ).length() - 2) * (magnitude(edge.dx()) + magnitude(edge.dy())),
            offset_to(edge, dot.pos).length() >= 1000,
            off_the_line(polygon, k, dot.pos) == (magnitude(
                side(polygon@, k, dot.pos.x as int, dot.pos.y as int),
            ) >= 2 * (magnitude(edge.dx()) + magnitude(edge.dy()))),
    ;
    lemma_push_across(dot, polygon, k);
    lemma_inward_is_a_turn(ring, k, dot.pos.x as int, dot.pos.y as int);
    lemma_push_across_a_segment(dot, edge, g, inside);
    let after: Dot = dot.spec_push(resolve(closest, dot.radius, inside)->0);
    lemma_inward_is_a_turn(ring, k, after.pos.x as int, after.pos.y as int);
    let whole: int = floor_sqrt(norm2(closest.x as int, closest.y as int));
    assert(whole >= 1000);
    let held: int = magnitude(inward(ring, k, dot.pos.x as int, dot.pos.y as int));
    let turned: int = inward(ring, k, after.pos.x as int, after.pos.y as int);
    lemma_turn_near_the_radius(
        (g.dx(), g.dy()),
        (closest.x as int, closest.y as int),
        whole,
        dot.radius as int,
        held,
        turned,
    );
    assert(g.dx() * g.dx() + g.dy() * g.dy() == edge.span()) by (nonlinear_arith)
        requires
            (g.dx() == edge.dx() && g.dy() == edge.dy()) || (g.dx() == -edge.dx() && g.dy()
                == -edge.dy()),
            edge.span() == edge.dx() * edge.dx() + edge.dy() * edge.dy(),
    ;
}

} // verus!
