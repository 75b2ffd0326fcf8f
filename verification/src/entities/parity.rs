//! Why the parity of the crossings tells inside from outside, for strictly
//! convex polygons that run either way round, and on which side of an edge
//! such a polygon lies.

use crate::entities::dot::{crossings, Dot};
use crate::entities::polygon::{ring_edge, ring_edges, successor, Polygon};
use crate::entities::segment::Segment;
use crate::utils::vector::Vector2;
use vstd::prelude::*;

verus! {

/// How many of the first `n` indices satisfy `f`.
pub open spec fn count_where(f: spec_fn(int) -> bool, n: nat) -> nat
    decreases n,
{
    if n == 0 {
        0
    } else {
        count_where(f, (n - 1) as nat) + if f(n - 1) {
            1nat
        } else {
            0nat
        }
    }
}

/// Where no index satisfies `f`, the count is zero.
pub proof fn lemma_count_none(f: spec_fn(int) -> bool, n: nat)
    requires
        forall|i: int| 0 <= i < n ==> !#[trigger] f(i),
    ensures
        count_where(f, n) == 0,
    decreases n,
{
    if n > 0 {
        lemma_count_none(f, (n - 1) as nat);
    }
}

/// Where exactly one index satisfies `f`, the count is one.
proof fn lemma_count_one(f: spec_fn(int) -> bool, n: nat, a: int)
    requires
        0 <= a < n,
        f(a),
        forall|i: int| 0 <= i < n && #[trigger] f(i) ==> i == a,
    ensures
        count_where(f, n) == 1,
    decreases n,
{
    if a == n - 1 {
        lemma_count_none(f, (n - 1) as nat);
    } else {
        lemma_count_one(f, (n - 1) as nat, a);
    }
}

/// Where exactly two indices satisfy `f`, the count is two.
proof fn lemma_count_two(f: spec_fn(int) -> bool, n: nat, a: int, b: int)
    requires
        0 <= a < b < n,
        f(a),
        f(b),
        forall|i: int| 0 <= i < n && #[trigger] f(i) ==> i == a || i == b,
    ensures
        count_where(f, n) == 2,
    decreases n,
{
    if b == n - 1 {
        lemma_count_one(f, (n - 1) as nat, a);
    } else {
        lemma_count_two(f, (n - 1) as nat, a, b);
    }
}

/// The crossings are the edges that the ray hits, counted.
pub proof fn lemma_crossings_count(edges: Seq<Segment>, point: Vector2)
    ensures
        crossings(edges, point) == count_where(
            |i: int| edges[i].ray_hits(point),
            edges.len(),
        ),
    decreases edges.len(),
{
    if edges.len() > 0 {
        let shorter: Seq<Segment> = edges.drop_last();
        lemma_crossings_count(shorter, point);
        lemma_count_agrees(
            |i: int| shorter[i].ray_hits(point),
            |i: int| edges[i].ray_hits(point),
            shorter.len(),
        );
    }
}

/// Two predicates that agree on the first `n` indices have one count.
pub proof fn lemma_count_agrees(f: spec_fn(int) -> bool, g: spec_fn(int) -> bool, n: nat)
    requires
        forall|i: int| 0 <= i < n ==> #[trigger] f(i) == g(i),
    ensures
        count_where(f, n) == count_where(g, n),
    decreases n,
{
    if n > 0 {
        lemma_count_agrees(f, g, (n - 1) as nat);
    }
}

/// The cross product of the way from `a` to `b` with the way from `a` to
/// `(x, y)`: positive on one side of the line through `a` and `b`, negative
/// on the other, zero on it.
pub open spec fn turn(ax: int, ay: int, bx: int, by: int, x: int, y: int) -> int {
    (bx - ax) * (y - ay) - (by - ay) * (x - ax)
}

/// On which side of edge `i` of the ring the place `(x, y)` lies.
pub open spec fn side(ring: Seq<(i32, i32)>, i: int, x: int, y: int) -> int {
    let j: int = successor(i, ring.len() as int);
    turn(ring[i].0 as int, ring[i].1 as int, ring[j].0 as int, ring[j].1 as int, x, y)
}

/// On which side of edge `i` of the ring vertex `k` lies.
pub open spec fn side_of_vertex(ring: Seq<(i32, i32)>, i: int, k: int) -> int {
    side(ring, i, ring[k].0 as int, ring[k].1 as int)
}

/// Every vertex lies strictly on the positive side of every edge that it
/// is not an end of: the ring is convex, no three of its vertices lie on
/// one line, and it runs from the `x` axis toward the `y` axis.
pub open spec fn strictly_convex(ring: Seq<(i32, i32)>) -> bool {
    &&& ring.len() >= 3
    &&& forall|i: int, k: int|
        0 <= i < ring.len() && 0 <= k < ring.len() && k != i && k != successor(
            i,
            ring.len() as int,
        ) ==> #[trigger] side_of_vertex(ring, i, k) > 0
}

/// The point lies on the positive side of every edge.
pub open spec fn strictly_inside(ring: Seq<(i32, i32)>, point: Vector2) -> bool {
    forall|i: int|
        0 <= i < ring.len() ==> #[trigger] side(ring, i, point.x as int, point.y as int) > 0
}

/// The point lies on the negative side of some edge.
pub open spec fn strictly_outside(ring: Seq<(i32, i32)>, point: Vector2) -> bool {
    exists|i: int|
        0 <= i < ring.len() && #[trigger] side(ring, i, point.x as int, point.y as int) < 0
}

/// Edge `i` runs toward larger `x` across the vertical line at `x`.
pub open spec fn spans_rightward(ring: Seq<(i32, i32)>, i: int, x: int) -> bool {
    ring[i].0 <= x < ring[successor(i, ring.len() as int)].0
}

/// Edge `i` runs toward smaller `x` across the vertical line at `x`.
pub open spec fn spans_leftward(ring: Seq<(i32, i32)>, i: int, x: int) -> bool {
    ring[successor(i, ring.len() as int)].0 <= x < ring[i].0
}

/// The ray from `point` hits an edge of a polygon exactly where the edge
/// runs rightward across the ray's line with the point on its negative
/// side, or leftward with the point on its positive side.
pub proof fn lemma_hit_by_side(ring: Seq<(i32, i32)>, i: int, point: Vector2)
    requires
        0 <= i < ring.len(),
    ensures
        ring_edge(ring, i).ray_hits(point) <==> (spans_rightward(ring, i, point.x as int) && side(
            ring,
            i,
            point.x as int,
            point.y as int,
        ) < 0) || (spans_leftward(ring, i, point.x as int) && side(
            ring,
            i,
            point.x as int,
            point.y as int,
        ) > 0),
{
    let edge: Segment = ring_edge(ring, i);
    let lhs: int = edge.dy() * (point.x - edge.p1.x);
    let rhs: int = (point.y - edge.p1.y) * edge.dx();
    assert(side(ring, i, point.x as int, point.y as int) == rhs - lhs) by (nonlinear_arith)
        requires
            side(ring, i, point.x as int, point.y as int) == edge.dx() * (point.y
                - edge.p1.y) - edge.dy() * (point.x - edge.p1.x),
            lhs == edge.dy() * (point.x - edge.p1.x),
            rhs == (point.y - edge.p1.y) * edge.dx(),
    ;
}

/// Every vertex of a strictly convex ring lies on the positive side of
/// every edge, or on the edge.
pub proof fn lemma_vertices_on_the_side(ring: Seq<(i32, i32)>, i: int, k: int)
    requires
        strictly_convex(ring),
        0 <= i < ring.len(),
        0 <= k < ring.len(),
    ensures
        side_of_vertex(ring, i, k) >= 0,
        side_of_vertex(ring, i, k) == 0 <==> k == i || k == successor(
            i,
            ring.len() as int,
        ),
{
    let j: int = successor(i, ring.len() as int);
    let ax: int = ring[i].0 as int;
    let ay: int = ring[i].1 as int;
    let bx: int = ring[j].0 as int;
    let by: int = ring[j].1 as int;
    assert(turn(ax, ay, bx, by, ax, ay) == 0) by (nonlinear_arith);
    assert(turn(ax, ay, bx, by, bx, by) == 0) by (nonlinear_arith);
    if k != i && k != j {
        assert(side_of_vertex(ring, i, k) > 0);
    }
}

/// Between an index where `f` fails and a later one where it holds, there
/// is a step at which it starts to hold.
proof fn lemma_step_between(f: spec_fn(int) -> bool, a: int, c: int) -> (i: int)
    requires
        a < c,
        !f(a),
        f(c),
    ensures
        a <= i < c,
        !f(i),
        f(i + 1),
    decreases c - a,
{
    if f(a + 1) {
        a
    } else {
        lemma_step_between(f, a + 1, c)
    }
}

/// Around a ring of `n` places, if `f` fails somewhere and holds
/// somewhere, there is a place where it fails and at whose successor it
/// holds.
proof fn lemma_step_on_ring(f: spec_fn(int) -> bool, n: int, a: int, c: int) -> (i: int)
    requires
        0 <= a < n,
        0 <= c < n,
        !f(a),
        f(c),
    ensures
        0 <= i < n,
        !f(i),
        f(successor(i, n)),
{
    if a < c {
        lemma_step_between(f, a, c)
    } else if f(n - 1) {
        lemma_step_between(f, a, n - 1)
    } else if f(0) {
        n - 1
    } else {
        lemma_step_between(f, 0, c)
    }
}

/// The turn may be taken from the end of the line as well as from its
/// start.
proof fn lemma_turn_from_the_end(ax: int, ay: int, bx: int, by: int, x: int, y: int)
    by (nonlinear_arith)
    ensures
        turn(ax, ay, bx, by, x, y) == (bx - ax) * (y - by) - (by - ay) * (x - bx),
{
}

/// A product of three numbers, spelled out for two pairs of factors.
proof fn lemma_weighted_cross(ex: int, ey: int, px: int, py: int, qx: int, qy: int)
    ensures
        (-qx) * (ex * py - ey * px) + px * (ex * qy - ey * qx) == ex * (px * qy - qx * py),
{
    assert((-qx) * (ex * py) == -(ex * (qx * py))) by (nonlinear_arith);
    assert((-qx) * (ey * px) == -(ey * (px * qx))) by (nonlinear_arith);
    assert(px * (ex * qy) == ex * (px * qy)) by (nonlinear_arith);
    assert(px * (ey * qx) == ey * (px * qx)) by (nonlinear_arith);
    assert((-qx) * (ex * py - ey * px) == (-qx) * (ex * py) - (-qx) * (ey * px))
        by (nonlinear_arith);
    assert(px * (ex * qy - ey * qx) == px * (ex * qy) - px * (ey * qx)) by (nonlinear_arith);
    assert(ex * (px * qy - qx * py) == ex * (px * qy) - ex * (qx * py)) by (nonlinear_arith);
}

/// For `b` on the line through `a` and `b`: the sides of `c` and `d`
/// with respect to that line, weighted by how far `b` is from `d` and from
/// `c` along `x`, give the side of `b` with respect to the line through `c`
/// and `d`, times the extent of the first line along `x`.
proof fn lemma_sides_at_the_end(
    ax: int,
    ay: int,
    bx: int,
    by: int,
    cx: int,
    cy: int,
    dx: int,
    dy: int,
)
    ensures
        (bx - dx) * turn(ax, ay, bx, by, cx, cy) + (cx - bx) * turn(ax, ay, bx, by, dx, dy) == (bx
            - ax) * turn(cx, cy, dx, dy, bx, by),
{
    let ex: int = bx - ax;
    let ey: int = by - ay;
    let px: int = cx - bx;
    let py: int = cy - by;
    let qx: int = dx - bx;
    let qy: int = dy - by;
    lemma_turn_from_the_end(ax, ay, bx, by, cx, cy);
    lemma_turn_from_the_end(ax, ay, bx, by, dx, dy);
    lemma_weighted_cross(ex, ey, px, py, qx, qy);
    assert(turn(cx, cy, dx, dy, bx, by) == px * qy - qx * py) by (nonlinear_arith)
        requires
            turn(cx, cy, dx, dy, bx, by) == (dx - cx) * (by - cy) - (dy - cy) * (bx - cx),
            px == cx - bx,
            py == cy - by,
            qx == dx - bx,
            qy == dy - by,
    ;
}

/// The same for the start `a` of the first line.
proof fn lemma_sides_at_the_start(
    ax: int,
    ay: int,
    bx: int,
    by: int,
    cx: int,
    cy: int,
    dx: int,
    dy: int,
)
    ensures
        (dx - ax) * turn(ax, ay, bx, by, cx, cy) + (ax - cx) * turn(ax, ay, bx, by, dx, dy) == -(bx
            - ax) * turn(cx, cy, dx, dy, ax, ay),
{
    let ex: int = bx - ax;
    let ey: int = by - ay;
    let px: int = cx - ax;
    let py: int = cy - ay;
    let qx: int = dx - ax;
    let qy: int = dy - ay;
    lemma_weighted_cross(ex, ey, px, py, qx, qy);
    assert(turn(cx, cy, dx, dy, ax, ay) == px * qy - qx * py) by (nonlinear_arith)
        requires
            turn(cx, cy, dx, dy, ax, ay) == (dx - cx) * (ay - cy) - (dy - cy) * (ax - cx),
            px == cx - ax,
            py == cy - ay,
            qx == dx - ax,
            qy == dy - ay,
    ;
    assert(-(bx - ax) * turn(cx, cy, dx, dy, ax, ay) == -(ex * (px * qy - qx * py)))
        by (nonlinear_arith)
        requires
            ex == bx - ax,
            turn(cx, cy, dx, dy, ax, ay) == px * qy - qx * py,
    ;
    assert((dx - ax) * turn(ax, ay, bx, by, cx, cy) + (ax - cx) * turn(ax, ay, bx, by, dx, dy)
        == -((-qx) * (ex * py - ey * px) + px * (ex * qy - ey * qx))) by (nonlinear_arith)
        requires
            turn(ax, ay, bx, by, cx, cy) == ex * py - ey * px,
            turn(ax, ay, bx, by, dx, dy) == ex * qy - ey * qx,
            qx == dx - ax,
            px == cx - ax,
    ;
}

/// A sum of two products of numbers that are not negative, equal to a
/// product of a negative number and one that is not negative, leaves that
/// last number zero.
proof fn lemma_squeezed_to_zero(p: int, s: int, q: int, t: int, e: int, u: int)
    by (nonlinear_arith)
    requires
        p >= 0,
        s >= 0,
        q >= 0,
        t >= 0,
        e < 0,
        u >= 0,
        p * s + q * t == e * u,
    ensures
        u == 0,
{
}

/// Of two different edges of a strictly convex ring that both run
/// leftward across one vertical line, the end of the first cannot lie at
/// or beyond the end of the second.
proof fn lemma_leftward_spans_ordered(ring: Seq<(i32, i32)>, i: int, j: int, x: int)
    requires
        strictly_convex(ring),
        0 <= i < ring.len(),
        0 <= j < ring.len(),
        spans_leftward(ring, i, x),
        spans_leftward(ring, j, x),
        ring[successor(i, ring.len() as int)].0 >= ring[successor(
            j,
            ring.len() as int,
        )].0,
    ensures
        i == j,
{
    let n: int = ring.len() as int;
    let si: int = successor(i, n);
    let sj: int = successor(j, n);
    let (ax, ay) = (ring[i].0 as int, ring[i].1 as int);
    let (bx, by) = (ring[si].0 as int, ring[si].1 as int);
    let (cx, cy) = (ring[j].0 as int, ring[j].1 as int);
    let (dx, dy) = (ring[sj].0 as int, ring[sj].1 as int);
    lemma_vertices_on_the_side(ring, i, j);
    lemma_vertices_on_the_side(ring, i, sj);
    lemma_vertices_on_the_side(ring, j, si);
    lemma_sides_at_the_end(ax, ay, bx, by, cx, cy, dx, dy);
    assert(side_of_vertex(ring, i, j) == turn(ax, ay, bx, by, cx, cy));
    assert(side_of_vertex(ring, i, sj) == turn(ax, ay, bx, by, dx, dy));
    assert(side_of_vertex(ring, j, si) == turn(cx, cy, dx, dy, bx, by));
    lemma_squeezed_to_zero(
        bx - dx,
        turn(ax, ay, bx, by, cx, cy),
        cx - bx,
        turn(ax, ay, bx, by, dx, dy),
        bx - ax,
        turn(cx, cy, dx, dy, bx, by),
    );
}

/// At most one edge of a strictly convex ring runs leftward across a
/// vertical line.
pub proof fn lemma_one_leftward_span(ring: Seq<(i32, i32)>, i: int, j: int, x: int)
    requires
        strictly_convex(ring),
        0 <= i < ring.len(),
        0 <= j < ring.len(),
        spans_leftward(ring, i, x),
        spans_leftward(ring, j, x),
    ensures
        i == j,
{
    let n: int = ring.len() as int;
    if ring[successor(i, n)].0 >= ring[successor(j, n)].0 {
        lemma_leftward_spans_ordered(ring, i, j, x);
    } else {
        lemma_leftward_spans_ordered(ring, j, i, x);
    }
}

/// Of two different edges of a strictly convex ring that both run
/// rightward across one vertical line, the start of the first cannot lie
/// at or beyond the start of the second.
proof fn lemma_rightward_spans_ordered(ring: Seq<(i32, i32)>, i: int, j: int, x: int)
    requires
        strictly_convex(ring),
        0 <= i < ring.len(),
        0 <= j < ring.len(),
        spans_rightward(ring, i, x),
        spans_rightward(ring, j, x),
        ring[i].0 >= ring[j].0,
    ensures
        i == j,
{
    let n: int = ring.len() as int;
    let si: int = successor(i, n);
    let sj: int = successor(j, n);
    let (ax, ay) = (ring[i].0 as int, ring[i].1 as int);
    let (bx, by) = (ring[si].0 as int, ring[si].1 as int);
    let (cx, cy) = (ring[j].0 as int, ring[j].1 as int);
    let (dx, dy) = (ring[sj].0 as int, ring[sj].1 as int);
    lemma_vertices_on_the_side(ring, i, j);
    lemma_vertices_on_the_side(ring, i, sj);
    lemma_vertices_on_the_side(ring, j, i);
    lemma_sides_at_the_start(ax, ay, bx, by, cx, cy, dx, dy);
    assert(side_of_vertex(ring, i, j) == turn(ax, ay, bx, by, cx, cy));
    assert(side_of_vertex(ring, i, sj) == turn(ax, ay, bx, by, dx, dy));
    assert(side_of_vertex(ring, j, i) == turn(cx, cy, dx, dy, ax, ay));
    lemma_squeezed_to_zero(
        dx - ax,
        turn(ax, ay, bx, by, cx, cy),
        ax - cx,
        turn(ax, ay, bx, by, dx, dy),
        -(bx - ax),
        turn(cx, cy, dx, dy, ax, ay),
    );
}

/// At most one edge of a strictly convex ring runs rightward across a
/// vertical line.
pub proof fn lemma_one_rightward_span(ring: Seq<(i32, i32)>, i: int, j: int, x: int)
    requires
        strictly_convex(ring),
        0 <= i < ring.len(),
        0 <= j < ring.len(),
        spans_rightward(ring, i, x),
        spans_rightward(ring, j, x),
    ensures
        i == j,
{
    if ring[i].0 >= ring[j].0 {
        lemma_rightward_spans_ordered(ring, i, j, x);
    } else {
        lemma_rightward_spans_ordered(ring, j, i, x);
    }
}

/// The index that precedes `i` on a ring of `n` vertices.
pub open spec fn predecessor(i: int, n: int) -> int {
    if i == 0 {
        n - 1
    } else {
        i - 1
    }
}

/// Among the first `n` vertices, one has the largest `x`.
proof fn lemma_rightmost(ring: Seq<(i32, i32)>, n: nat) -> (m: int)
    requires
        0 < n <= ring.len(),
    ensures
        0 <= m < n,
        forall|k: int| 0 <= k < n ==> (#[trigger] ring[k]).0 <= ring[m].0,
    decreases n,
{
    if n == 1 {
        0
    } else {
        let m: int = lemma_rightmost(ring, (n - 1) as nat);
        if ring[n - 1].0 > ring[m].0 {
            n - 1
        } else {
            m
        }
    }
}

/// Among the first `n` vertices, one has the smallest `x`.
proof fn lemma_leftmost(ring: Seq<(i32, i32)>, n: nat) -> (m: int)
    requires
        0 < n <= ring.len(),
    ensures
        0 <= m < n,
        forall|k: int| 0 <= k < n ==> (#[trigger] ring[k]).0 >= ring[m].0,
    decreases n,
{
    if n == 1 {
        0
    } else {
        let m: int = lemma_leftmost(ring, (n - 1) as nat);
        if ring[n - 1].0 < ring[m].0 {
            n - 1
        } else {
            m
        }
    }
}

/// At a corner where the ring turns to the positive side, coming from the
/// left and leaving to the left, every place on the positive side of both
/// edges lies to the left of the corner.
proof fn lemma_corner_blocks_right(a: int, b: int, c: int, d: int, c2: int, d2: int)
    requires
        c <= 0 <= c2,
        c * b - d * a > 0,
        c2 * b - d2 * a > 0,
        c2 * d - d2 * c > 0,
    ensures
        a < 0,
{
    if a >= 0 {
        lemma_corner_meets_right(a, b, c, d, c2, d2);
    }
}

/// At a corner that is reached from the left and left to the left, with a
/// place at or to the right of it on the positive side of both edges, the
/// ring does not turn to the positive side.
proof fn lemma_corner_meets_right(a: int, b: int, c: int, d: int, c2: int, d2: int)
    requires
        c <= 0 <= c2,
        a >= 0,
        c * b - d * a > 0,
        c2 * b - d2 * a > 0,
    ensures
        c2 * d - d2 * c <= 0,
{
    let one: int = c * b - d * a;
    let two: int = c2 * b - d2 * a;
    let k: int = c2 * d - d2 * c;
    assert(c2 * one >= 0) by (nonlinear_arith)
        requires
            c2 >= 0,
            one > 0,
    ;
    assert((-c) * two >= 0) by (nonlinear_arith)
        requires
            c <= 0,
            two > 0,
    ;
    assert(k > 0 ==> a * k >= 0) by (nonlinear_arith)
        requires
            a >= 0,
    ;
    assert(c2 * one == c2 * (c * b) - c2 * (d * a)) by (nonlinear_arith)
        requires
            one == c * b - d * a,
    ;
    assert((-c) * two == -(c * (c2 * b)) + c * (d2 * a)) by (nonlinear_arith)
        requires
            two == c2 * b - d2 * a,
    ;
    assert(a * k == a * (c2 * d) - a * (d2 * c)) by (nonlinear_arith)
        requires
            k == c2 * d - d2 * c,
    ;
    assert(c2 * (c * b) == c * (c2 * b)) by (nonlinear_arith);
    assert(c2 * (d * a) == a * (c2 * d)) by (nonlinear_arith);
    assert(c * (d2 * a) == a * (d2 * c)) by (nonlinear_arith);
    assert(c2 * one + (-c) * two == -(a * k));
    if k > 0 {
        assert(c2 == 0) by (nonlinear_arith)
            requires
                c2 * one == 0,
                one > 0,
        ;
        assert(c == 0) by (nonlinear_arith)
            requires
                (-c) * two == 0,
                two > 0,
        ;
        assert(k == 0) by (nonlinear_arith)
            requires
                k == c2 * d - d2 * c,
                c2 == 0,
                c == 0,
        ;
    }
}

/// At a corner where the ring turns to the positive side, coming from the
/// right and leaving to the right, every place on the positive side of
/// both edges lies at or to the right of the corner.
proof fn lemma_corner_blocks_left(a: int, b: int, c: int, d: int, c2: int, d2: int)
    requires
        c2 <= 0 <= c,
        c * b - d * a > 0,
        c2 * b - d2 * a > 0,
        c2 * d - d2 * c > 0,
    ensures
        a >= 0,
{
    let one: int = c * b - d * a;
    let two: int = c2 * b - d2 * a;
    let k: int = c2 * d - d2 * c;
    assert((-c2) * one >= 0) by (nonlinear_arith)
        requires
            c2 <= 0,
            one > 0,
    ;
    assert(c * two >= 0) by (nonlinear_arith)
        requires
            c >= 0,
            two > 0,
    ;
    assert(a < 0 ==> a * k < 0) by (nonlinear_arith)
        requires
            k > 0,
    ;
    assert((-c2) * one == -(c2 * (c * b)) + c2 * (d * a)) by (nonlinear_arith)
        requires
            one == c * b - d * a,
    ;
    assert(c * two == c * (c2 * b) - c * (d2 * a)) by (nonlinear_arith)
        requires
            two == c2 * b - d2 * a,
    ;
    assert(a * k == a * (c2 * d) - a * (d2 * c)) by (nonlinear_arith)
        requires
            k == c2 * d - d2 * c,
    ;
    assert(c2 * (c * b) == c * (c2 * b)) by (nonlinear_arith);
    assert(c2 * (d * a) == a * (c2 * d)) by (nonlinear_arith);
    assert(c * (d2 * a) == a * (d2 * c)) by (nonlinear_arith);
    assert((-c2) * one + c * two == a * k);
}

/// A point strictly inside a strictly convex ring has a vertex at or to
/// the left of it, and a vertex to the right of it.
pub proof fn lemma_inside_between_vertices(ring: Seq<(i32, i32)>, point: Vector2) -> (r: (
    int,
    int,
))
    requires
        strictly_convex(ring),
        strictly_inside(ring, point),
    ensures
        0 <= r.0 < ring.len(),
        0 <= r.1 < ring.len(),
        ring[r.0].0 <= point.x,
        ring[r.1].0 > point.x,
{
    let n: int = ring.len() as int;
    let high: int = lemma_rightmost(ring, ring.len());
    let low: int = lemma_leftmost(ring, ring.len());
    {
        lemma_corner_is_open(ring, point, high);
        let before: int = predecessor(high, n);
        let after: int = successor(high, n);
        assert(ring[after].0 <= ring[high].0);
        assert(ring[before].0 <= ring[high].0);
        lemma_corner_blocks_right(
            point.x - ring[high].0,
            point.y - ring[high].1,
            ring[after].0 - ring[high].0,
            ring[after].1 - ring[high].1,
            ring[high].0 - ring[before].0,
            ring[high].1 - ring[before].1,
        );
    }
    {
        lemma_corner_is_open(ring, point, low);
        let before: int = predecessor(low, n);
        let after: int = successor(low, n);
        assert(ring[after].0 >= ring[low].0);
        assert(ring[before].0 >= ring[low].0);
        lemma_corner_blocks_left(
            point.x - ring[low].0,
            point.y - ring[low].1,
            ring[after].0 - ring[low].0,
            ring[after].1 - ring[low].1,
            ring[low].0 - ring[before].0,
            ring[low].1 - ring[before].1,
        );
    }
    (low, high)
}

/// At every vertex of a strictly convex ring, a point strictly inside lies
/// on the positive side of the edge that arrives and of the edge that
/// leaves, and the ring turns to the positive side.
proof fn lemma_corner_is_open(ring: Seq<(i32, i32)>, point: Vector2, m: int)
    requires
        strictly_convex(ring),
        strictly_inside(ring, point),
        0 <= m < ring.len(),
    ensures
        ({
            let n: int = ring.len() as int;
            let before: int = predecessor(m, n);
            let after: int = successor(m, n);
            let a: int = point.x - ring[m].0;
            let b: int = point.y - ring[m].1;
            let c: int = ring[after].0 - ring[m].0;
            let d: int = ring[after].1 - ring[m].1;
            let c2: int = ring[m].0 - ring[before].0;
            let d2: int = ring[m].1 - ring[before].1;
            &&& 0 <= before < n
            &&& 0 <= after < n
            &&& c * b - d * a > 0
            &&& c2 * b - d2 * a > 0
            &&& c2 * d - d2 * c > 0
        }),
{
    let n: int = ring.len() as int;
    let before: int = predecessor(m, n);
    let after: int = successor(m, n);
    assert(successor(before, n) == m);
    assert(side(ring, m, point.x as int, point.y as int) > 0);
    assert(side(ring, before, point.x as int, point.y as int) > 0);
    assert(side_of_vertex(ring, before, after) > 0);
    lemma_turn_from_the_end(
        ring[before].0 as int,
        ring[before].1 as int,
        ring[m].0 as int,
        ring[m].1 as int,
        point.x as int,
        point.y as int,
    );
    lemma_turn_from_the_end(
        ring[before].0 as int,
        ring[before].1 as int,
        ring[m].0 as int,
        ring[m].1 as int,
        ring[after].0 as int,
        ring[after].1 as int,
    );
}

/// The turn is an affine function of the place.
proof fn lemma_turn_is_affine(ax: int, ay: int, bx: int, by: int, x: int, y: int)
    by (nonlinear_arith)
    ensures
        turn(ax, ay, bx, by, x, y) == (bx - ax) * y - (by - ay) * x + ((by - ay) * ax - (bx - ax)
            * ay),
{
}

/// A weight times an affine function, spelled out.
proof fn lemma_weighted_affine(w: int, alpha: int, beta: int, gamma: int, x: int, y: int)
    by (nonlinear_arith)
    ensures
        w * (alpha * y - beta * x + gamma) == alpha * (w * y) - beta * (w * x) + gamma * w,
{
}

/// An affine function at a weighted mean of four places is the weighted
/// mean of its values there.
proof fn lemma_affine_at_the_mean(
    alpha: int,
    beta: int,
    gamma: int,
    weights: (int, int, int, int),
    xs: (int, int, int, int),
    ys: (int, int, int, int),
    total: int,
    x: int,
    y: int,
)
    requires
        weights.0 + weights.1 + weights.2 + weights.3 == total,
        weights.0 * xs.0 + weights.1 * xs.1 + weights.2 * xs.2 + weights.3 * xs.3 == total * x,
        weights.0 * ys.0 + weights.1 * ys.1 + weights.2 * ys.2 + weights.3 * ys.3 == total * y,
    ensures
        weights.0 * (alpha * ys.0 - beta * xs.0 + gamma) + weights.1 * (alpha * ys.1 - beta * xs.1
            + gamma) + weights.2 * (alpha * ys.2 - beta * xs.2 + gamma) + weights.3 * (alpha
            * ys.3 - beta * xs.3 + gamma) == total * (alpha * y - beta * x + gamma),
{
    lemma_weighted_affine(weights.0, alpha, beta, gamma, xs.0, ys.0);
    lemma_weighted_affine(weights.1, alpha, beta, gamma, xs.1, ys.1);
    lemma_weighted_affine(weights.2, alpha, beta, gamma, xs.2, ys.2);
    lemma_weighted_affine(weights.3, alpha, beta, gamma, xs.3, ys.3);
    lemma_weighted_affine(total, alpha, beta, gamma, x, y);
    let sum_x: int = weights.0 * xs.0 + weights.1 * xs.1 + weights.2 * xs.2 + weights.3 * xs.3;
    let sum_y: int = weights.0 * ys.0 + weights.1 * ys.1 + weights.2 * ys.2 + weights.3 * ys.3;
    assert(alpha * sum_y == alpha * (weights.0 * ys.0) + alpha * (weights.1 * ys.1) + alpha * (
    weights.2 * ys.2) + alpha * (weights.3 * ys.3)) by (nonlinear_arith)
        requires
            sum_y == weights.0 * ys.0 + weights.1 * ys.1 + weights.2 * ys.2 + weights.3 * ys.3,
    ;
    assert(beta * sum_x == beta * (weights.0 * xs.0) + beta * (weights.1 * xs.1) + beta * (
    weights.2 * xs.2) + beta * (weights.3 * xs.3)) by (nonlinear_arith)
        requires
            sum_x == weights.0 * xs.0 + weights.1 * xs.1 + weights.2 * xs.2 + weights.3 * xs.3,
    ;
    assert(gamma * total == gamma * weights.0 + gamma * weights.1 + gamma * weights.2 + gamma
        * weights.3) by (nonlinear_arith)
        requires
            weights.0 + weights.1 + weights.2 + weights.3 == total,
    ;
}

/// The height of the line through `a` and `b` at `x`, times the extent of
/// the line along `x`.
pub open spec fn height_on(ax: int, ay: int, bx: int, by: int, x: int) -> int {
    (bx - x) * ay + (x - ax) * by
}

/// The turn compares the height of the place with the height of the line.
proof fn lemma_turn_by_height(ax: int, ay: int, bx: int, by: int, x: int, y: int)
    by (nonlinear_arith)
    ensures
        turn(ax, ay, bx, by, x, y) == (bx - ax) * y - height_on(ax, ay, bx, by, x),
{
}

/// Between `a` and `b` along `x`, the weights of the two ends add up to
/// the extent, and weigh the ends to the place `x` and to the height
/// there.
proof fn lemma_weights_of_the_ends(ax: int, ay: int, bx: int, by: int, x: int)
    by (nonlinear_arith)
    ensures
        (bx - x) * ax + (x - ax) * bx == (bx - ax) * x,
        (bx - x) * ay + (x - ax) * by == height_on(ax, ay, bx, by, x),
{
}

/// An affine function that is not negative at two places is not negative
/// between them.
proof fn lemma_affine_between(g: int, h: int, lo: int, hi: int, x: int)
    by (nonlinear_arith)
    requires
        lo <= x <= hi,
        g + h * lo >= 0,
        g + h * hi >= 0,
    ensures
        g + h * x >= 0,
{
}

/// How far the line through `c` and `d` passes beyond the line through `a`
/// and `b` at `x`, times the extents of both lines along `x`.
pub open spec fn gap_at(
    ax: int,
    ay: int,
    bx: int,
    by: int,
    cx: int,
    cy: int,
    dx: int,
    dy: int,
    x: int,
) -> int {
    (dx - cx) * height_on(ax, ay, bx, by, x) - (bx - ax) * height_on(cx, cy, dx, dy, x)
}

/// The gap compares the turns of one place with respect to the two lines,
/// whatever the height of the place.
proof fn lemma_gap_by_turns(
    ax: int,
    ay: int,
    bx: int,
    by: int,
    cx: int,
    cy: int,
    dx: int,
    dy: int,
    x: int,
    y: int,
)
    ensures
        gap_at(ax, ay, bx, by, cx, cy, dx, dy, x) == (bx - ax) * turn(cx, cy, dx, dy, x, y) - (dx
            - cx) * turn(ax, ay, bx, by, x, y),
{
    let er: int = bx - ax;
    let el: int = dx - cx;
    let hr: int = height_on(ax, ay, bx, by, x);
    let hl: int = height_on(cx, cy, dx, dy, x);
    lemma_turn_by_height(ax, ay, bx, by, x, y);
    lemma_turn_by_height(cx, cy, dx, dy, x, y);
    assert(er * (el * y - hl) - el * (er * y - hr) == el * hr - er * hl) by (nonlinear_arith);
}

/// The gap is an affine function of `x`.
proof fn lemma_gap_is_affine(
    ax: int,
    ay: int,
    bx: int,
    by: int,
    cx: int,
    cy: int,
    dx: int,
    dy: int,
    x: int,
)
    ensures
        gap_at(ax, ay, bx, by, cx, cy, dx, dy, x) == gap_at(ax, ay, bx, by, cx, cy, dx, dy, 0) + ((
        dx - cx) * (by - ay) - (bx - ax) * (dy - cy)) * x,
{
    let er: int = bx - ax;
    let el: int = dx - cx;
    assert(height_on(ax, ay, bx, by, x) == height_on(ax, ay, bx, by, 0) + (by - ay) * x)
        by (nonlinear_arith)
        requires
            height_on(ax, ay, bx, by, x) == (bx - x) * ay + (x - ax) * by,
            height_on(ax, ay, bx, by, 0) == (bx - 0) * ay + (0 - ax) * by,
    ;
    assert(height_on(cx, cy, dx, dy, x) == height_on(cx, cy, dx, dy, 0) + (dy - cy) * x)
        by (nonlinear_arith)
        requires
            height_on(cx, cy, dx, dy, x) == (dx - x) * cy + (x - cx) * dy,
            height_on(cx, cy, dx, dy, 0) == (dx - 0) * cy + (0 - cx) * dy,
    ;
    let hr0: int = height_on(ax, ay, bx, by, 0);
    let hl0: int = height_on(cx, cy, dx, dy, 0);
    let sr: int = by - ay;
    let sl: int = dy - cy;
    assert(el * (hr0 + sr * x) == el * hr0 + el * (sr * x)) by (nonlinear_arith);
    assert(er * (hl0 + sl * x) == er * hl0 + er * (sl * x)) by (nonlinear_arith);
    assert(el * (sr * x) == (el * sr) * x) by (nonlinear_arith);
    assert(er * (sl * x) == (er * sl) * x) by (nonlinear_arith);
    assert((el * sr - er * sl) * x == (el * sr) * x - (er * sl) * x) by (nonlinear_arith);
}

/// Where an edge that runs rightward and an edge that runs leftward both
/// cross the vertical line at `x`, and the ends of each lie on the
/// positive side of the other or on it, the leftward edge does not pass
/// before the rightward one: the gap at `x` is not negative.
pub proof fn lemma_lower_below_upper(
    ax: int,
    ay: int,
    bx: int,
    by: int,
    cx: int,
    cy: int,
    dx: int,
    dy: int,
    x: int,
)
    requires
        ax <= x < bx,
        dx <= x < cx,
        turn(cx, cy, dx, dy, ax, ay) >= 0,
        turn(cx, cy, dx, dy, bx, by) >= 0,
        turn(ax, ay, bx, by, cx, cy) >= 0,
        turn(ax, ay, bx, by, dx, dy) >= 0,
    ensures
        gap_at(ax, ay, bx, by, cx, cy, dx, dy, x) >= 0,
{
    let er: int = bx - ax;
    let el: int = dx - cx;
    let lo: int = if ax >= dx { ax } else { dx };
    let hi: int = if bx <= cx { bx } else { cx };
    let g: int = gap_at(ax, ay, bx, by, cx, cy, dx, dy, 0);
    let h: int = (dx - cx) * (by - ay) - (bx - ax) * (dy - cy);
    lemma_gap_is_affine(ax, ay, bx, by, cx, cy, dx, dy, lo);
    lemma_gap_is_affine(ax, ay, bx, by, cx, cy, dx, dy, hi);
    lemma_gap_is_affine(ax, ay, bx, by, cx, cy, dx, dy, x);
    assert(turn(ax, ay, bx, by, ax, ay) == 0) by (nonlinear_arith);
    assert(turn(ax, ay, bx, by, bx, by) == 0) by (nonlinear_arith);
    assert(turn(cx, cy, dx, dy, cx, cy) == 0) by (nonlinear_arith);
    assert(turn(cx, cy, dx, dy, dx, dy) == 0) by (nonlinear_arith);
    assert(gap_at(ax, ay, bx, by, cx, cy, dx, dy, lo) >= 0) by {
        if ax >= dx {
            lemma_gap_by_turns(ax, ay, bx, by, cx, cy, dx, dy, ax, ay);
            assert(er * turn(cx, cy, dx, dy, ax, ay) >= 0) by (nonlinear_arith)
                requires
                    er > 0,
                    turn(cx, cy, dx, dy, ax, ay) >= 0,
            ;
            assert(el * 0 == 0);
        } else {
            lemma_gap_by_turns(ax, ay, bx, by, cx, cy, dx, dy, dx, dy);
            assert(el * turn(ax, ay, bx, by, dx, dy) <= 0) by (nonlinear_arith)
                requires
                    el < 0,
                    turn(ax, ay, bx, by, dx, dy) >= 0,
            ;
            assert(er * 0 == 0);
        }
    }
    assert(gap_at(ax, ay, bx, by, cx, cy, dx, dy, hi) >= 0) by {
        if bx <= cx {
            lemma_gap_by_turns(ax, ay, bx, by, cx, cy, dx, dy, bx, by);
            assert(er * turn(cx, cy, dx, dy, bx, by) >= 0) by (nonlinear_arith)
                requires
                    er > 0,
                    turn(cx, cy, dx, dy, bx, by) >= 0,
            ;
            assert(el * 0 == 0);
        } else {
            lemma_gap_by_turns(ax, ay, bx, by, cx, cy, dx, dy, cx, cy);
            assert(el * turn(ax, ay, bx, by, cx, cy) <= 0) by (nonlinear_arith)
                requires
                    el < 0,
                    turn(ax, ay, bx, by, cx, cy) >= 0,
            ;
            assert(er * 0 == 0);
        }
    }
    lemma_affine_between(g, h, lo, hi, x);
}

/// A place between a rightward edge and a leftward edge that both cross
/// its vertical line, on the positive side of the leftward edge and not on
/// the negative side of the rightward one, lies wherever the four ends of
/// the two edges lie: not on the negative side of any line that has all
/// four ends on its positive side or on it.
pub proof fn lemma_between_the_edges(
    a: (int, int),
    b: (int, int),
    c: (int, int),
    d: (int, int),
    point: (int, int),
    k1: (int, int),
    k2: (int, int),
)
    requires
        a.0 <= point.0 < b.0,
        d.0 <= point.0 < c.0,
        turn(a.0, a.1, b.0, b.1, point.0, point.1) >= 0,
        turn(c.0, c.1, d.0, d.1, point.0, point.1) > 0,
        turn(k1.0, k1.1, k2.0, k2.1, a.0, a.1) >= 0,
        turn(k1.0, k1.1, k2.0, k2.1, b.0, b.1) >= 0,
        turn(k1.0, k1.1, k2.0, k2.1, c.0, c.1) >= 0,
        turn(k1.0, k1.1, k2.0, k2.1, d.0, d.1) >= 0,
    ensures
        turn(k1.0, k1.1, k2.0, k2.1, point.0, point.1) >= 0,
{
    let (x, y) = point;
    let sr: int = turn(a.0, a.1, b.0, b.1, x, y);
    let sl: int = turn(c.0, c.1, d.0, d.1, x, y);
    let er: int = b.0 - a.0;
    let el: int = d.0 - c.0;
    let hr: int = height_on(a.0, a.1, b.0, b.1, x);
    let hl: int = height_on(d.0, d.1, c.0, c.1, x);
    let w0: int = sl * (b.0 - x);
    let w1: int = sl * (x - a.0);
    let w2: int = sr * (x - d.0);
    let w3: int = sr * (c.0 - x);
    let total: int = sl * er - sr * el;
    let alpha: int = k2.0 - k1.0;
    let beta: int = k2.1 - k1.1;
    let gamma: int = beta * k1.0 - alpha * k1.1;
    // the weights add up
    assert(w0 + w1 == sl * er) by (nonlinear_arith)
        requires
            w0 == sl * (b.0 - x),
            w1 == sl * (x - a.0),
            er == b.0 - a.0,
    ;
    assert(w2 + w3 == -(sr * el)) by (nonlinear_arith)
        requires
            w2 == sr * (x - d.0),
            w3 == sr * (c.0 - x),
            el == d.0 - c.0,
    ;
    // they weigh the four ends to the place
    lemma_weights_of_the_ends(a.0, a.1, b.0, b.1, x);
    lemma_weights_of_the_ends(d.0, d.1, c.0, c.1, x);
    assert(w0 * a.0 + w1 * b.0 == sl * (er * x)) by (nonlinear_arith)
        requires
            w0 == sl * (b.0 - x),
            w1 == sl * (x - a.0),
            (b.0 - x) * a.0 + (x - a.0) * b.0 == er * x,
    ;
    assert(w2 * c.0 + w3 * d.0 == sr * ((c.0 - d.0) * x)) by (nonlinear_arith)
        requires
            w2 == sr * (x - d.0),
            w3 == sr * (c.0 - x),
            (c.0 - x) * d.0 + (x - d.0) * c.0 == (c.0 - d.0) * x,
    ;
    assert(sl * (er * x) + sr * ((c.0 - d.0) * x) == total * x) by (nonlinear_arith)
        requires
            total == sl * er - sr * el,
            el == d.0 - c.0,
    ;
    assert(w0 * a.1 + w1 * b.1 == sl * hr) by (nonlinear_arith)
        requires
            w0 == sl * (b.0 - x),
            w1 == sl * (x - a.0),
            (b.0 - x) * a.1 + (x - a.0) * b.1 == hr,
    ;
    assert(w2 * c.1 + w3 * d.1 == sr * hl) by (nonlinear_arith)
        requires
            w2 == sr * (x - d.0),
            w3 == sr * (c.0 - x),
            (c.0 - x) * d.1 + (x - d.0) * c.1 == hl,
    ;
    lemma_turn_by_height(a.0, a.1, b.0, b.1, x, y);
    lemma_turn_by_height(c.0, c.1, d.0, d.1, x, y);
    assert(height_on(c.0, c.1, d.0, d.1, x) == -hl) by (nonlinear_arith)
        requires
            height_on(c.0, c.1, d.0, d.1, x) == (d.0 - x) * c.1 + (x - c.0) * d.1,
            hl == (c.0 - x) * d.1 + (x - d.0) * c.1,
    ;
    assert(sr == er * y - hr);
    assert(sl == el * y + hl);
    assert(sl * hr + sr * hl == total * y) by (nonlinear_arith)
        requires
            sr == er * y - hr,
            sl == el * y + hl,
            total == sl * er - sr * el,
    ;
    lemma_affine_at_the_mean(
        alpha,
        beta,
        gamma,
        (w0, w1, w2, w3),
        (a.0, b.0, c.0, d.0),
        (a.1, b.1, c.1, d.1),
        total,
        x,
        y,
    );
    lemma_turn_is_affine(k1.0, k1.1, k2.0, k2.1, a.0, a.1);
    lemma_turn_is_affine(k1.0, k1.1, k2.0, k2.1, b.0, b.1);
    lemma_turn_is_affine(k1.0, k1.1, k2.0, k2.1, c.0, c.1);
    lemma_turn_is_affine(k1.0, k1.1, k2.0, k2.1, d.0, d.1);
    lemma_turn_is_affine(k1.0, k1.1, k2.0, k2.1, x, y);
    let ga: int = turn(k1.0, k1.1, k2.0, k2.1, a.0, a.1);
    let gb: int = turn(k1.0, k1.1, k2.0, k2.1, b.0, b.1);
    let gc: int = turn(k1.0, k1.1, k2.0, k2.1, c.0, c.1);
    let gd: int = turn(k1.0, k1.1, k2.0, k2.1, d.0, d.1);
    let gp: int = turn(k1.0, k1.1, k2.0, k2.1, x, y);
    assert(w0 * ga + w1 * gb + w2 * gc + w3 * gd == total * gp);
    assert(w0 >= 0 && w1 >= 0 && w2 >= 0 && w3 >= 0) by (nonlinear_arith)
        requires
            w0 == sl * (b.0 - x),
            w1 == sl * (x - a.0),
            w2 == sr * (x - d.0),
            w3 == sr * (c.0 - x),
            sl > 0,
            sr >= 0,
            a.0 <= x < b.0,
            d.0 <= x < c.0,
    ;
    assert(w0 * ga >= 0 && w1 * gb >= 0 && w2 * gc >= 0 && w3 * gd >= 0) by (nonlinear_arith)
        requires
            w0 >= 0 && w1 >= 0 && w2 >= 0 && w3 >= 0,
            ga >= 0 && gb >= 0 && gc >= 0 && gd >= 0,
    ;
    assert(total > 0) by (nonlinear_arith)
        requires
            total == sl * er - sr * el,
            sl > 0,
            er > 0,
            sr >= 0,
            el < 0,
    ;
    assert(gp >= 0) by (nonlinear_arith)
        requires
            total * gp >= 0,
            total > 0,
    ;
}

/// The ray from a point strictly inside a strictly convex ring crosses
/// exactly one edge.
pub proof fn lemma_inside_crosses_once(ring: Seq<(i32, i32)>, point: Vector2)
    requires
        strictly_convex(ring),
        strictly_inside(ring, point),
    ensures
        crossings(ring_edges(ring), point) == 1,
{
    let n: int = ring.len() as int;
    let edges: Seq<Segment> = ring_edges(ring);
    let x: int = point.x as int;
    let (low, high) = lemma_inside_between_vertices(ring, point);
    let at_or_left = |i: int| ring[i].0 <= x;
    let l: int = lemma_step_on_ring(at_or_left, n, high, low);
    assert(spans_leftward(ring, l, x));
    let hit = |i: int| edges[i].ray_hits(point);
    assert forall|i: int| 0 <= i < n implies (#[trigger] hit(i) <==> spans_leftward(
        ring,
        i,
        x,
    )) by {
        lemma_hit_by_side(ring, i, point);
        assert(side(ring, i, x, point.y as int) > 0);
    }
    assert forall|i: int| 0 <= i < n && #[trigger] hit(i) implies i == l by {
        lemma_one_leftward_span(ring, i, l, x);
    }
    lemma_count_one(hit, n as nat, l);
    lemma_crossings_count(edges, point);
}

/// The ray from a point strictly outside a strictly convex ring crosses
/// no edge, or two.
pub proof fn lemma_outside_crosses_twice_or_never(ring: Seq<(i32, i32)>, point: Vector2)
    requires
        strictly_convex(ring),
        strictly_outside(ring, point),
    ensures
        crossings(ring_edges(ring), point) == 0 || crossings(ring_edges(ring), point) == 2,
{
    let n: int = ring.len() as int;
    let edges: Seq<Segment> = ring_edges(ring);
    let x: int = point.x as int;
    let y: int = point.y as int;
    let hit = |i: int| edges[i].ray_hits(point);
    let at_or_left = |i: int| ring[i].0 <= x;
    let right_of = |i: int| ring[i].0 > x;
    lemma_crossings_count(edges, point);
    assert forall|i: int| 0 <= i < n implies (#[trigger] hit(i) <==> (spans_rightward(ring, i, x)
        && side(ring, i, x, y) < 0) || (spans_leftward(ring, i, x) && side(ring, i, x, y)
        > 0)) by {
        lemma_hit_by_side(ring, i, point);
    }
    if exists|i: int| 0 <= i < n && (spans_leftward(ring, i, x) || spans_rightward(ring, i, x)) {
        let some: int = choose|i: int|
            0 <= i < n && (spans_leftward(ring, i, x) || spans_rightward(ring, i, x));
        let after: int = successor(some, n);
        // one edge leads leftward across the line, one rightward
        let l: int = if spans_leftward(ring, some, x) {
            some
        } else {
            lemma_step_on_ring(at_or_left, n, after, some)
        };
        let r: int = if spans_rightward(ring, some, x) {
            some
        } else {
            lemma_step_on_ring(right_of, n, after, some)
        };
        assert(spans_leftward(ring, l, x));
        assert(spans_rightward(ring, r, x));
        assert forall|i: int|
            0 <= i < n && #[trigger] hit(i) implies i == l || i == r by {
            if spans_leftward(ring, i, x) {
                lemma_one_leftward_span(ring, i, l, x);
            } else {
                lemma_one_rightward_span(ring, i, r, x);
            }
        }
        let sl: int = successor(l, n);
        let sr: int = successor(r, n);
        let a: (int, int) = (ring[r].0 as int, ring[r].1 as int);
        let b: (int, int) = (ring[sr].0 as int, ring[sr].1 as int);
        let c: (int, int) = (ring[l].0 as int, ring[l].1 as int);
        let d: (int, int) = (ring[sl].0 as int, ring[sl].1 as int);
        lemma_vertices_on_the_side(ring, l, r);
        lemma_vertices_on_the_side(ring, l, sr);
        lemma_vertices_on_the_side(ring, r, l);
        lemma_vertices_on_the_side(ring, r, sl);
        assert(side_of_vertex(ring, l, r) == turn(c.0, c.1, d.0, d.1, a.0, a.1));
        assert(side_of_vertex(ring, l, sr) == turn(c.0, c.1, d.0, d.1, b.0, b.1));
        assert(side_of_vertex(ring, r, l) == turn(a.0, a.1, b.0, b.1, c.0, c.1));
        assert(side_of_vertex(ring, r, sl) == turn(a.0, a.1, b.0, b.1, d.0, d.1));
        let side_r: int = side(ring, r, x, y);
        let side_l: int = side(ring, l, x, y);
        // a point before the rightward edge is before the leftward one too
        lemma_lower_below_upper(a.0, a.1, b.0, b.1, c.0, c.1, d.0, d.1, x);
        lemma_gap_by_turns(a.0, a.1, b.0, b.1, c.0, c.1, d.0, d.1, x, y);
        assert(side_r < 0 ==> side_l > 0) by (nonlinear_arith)
            requires
                (b.0 - a.0) * side_l - (d.0 - c.0) * side_r >= 0,
                b.0 - a.0 > 0,
                d.0 - c.0 < 0,
        ;
        // a point between the two edges is not outside
        if side_r >= 0 && side_l > 0 {
            let k: int = choose|k: int| 0 <= k < n && #[trigger] side(ring, k, x, y) < 0;
            let sk: int = successor(k, n);
            lemma_vertices_on_the_side(ring, k, r);
            lemma_vertices_on_the_side(ring, k, sr);
            lemma_vertices_on_the_side(ring, k, l);
            lemma_vertices_on_the_side(ring, k, sl);
            lemma_between_the_edges(
                a,
                b,
                c,
                d,
                (x, y),
                (ring[k].0 as int, ring[k].1 as int),
                (ring[sk].0 as int, ring[sk].1 as int),
            );
            assert(side_of_vertex(ring, k, r) == turn(
                ring[k].0 as int,
                ring[k].1 as int,
                ring[sk].0 as int,
                ring[sk].1 as int,
                a.0,
                a.1,
            ));
        }
        if side_r < 0 {
            assert(hit(r) && hit(l));
            if r < l {
                lemma_count_two(hit, n as nat, r, l);
            } else {
                lemma_count_two(hit, n as nat, l, r);
            }
        } else {
            assert(!hit(r) && !hit(l));
            lemma_count_none(hit, n as nat);
        }
    } else {
        lemma_count_none(hit, n as nat);
    }
}

/// The ray hits an edge whichever of its ends is taken first.
pub proof fn lemma_hit_either_way(edge: Segment, point: Vector2)
    ensures
        edge.ray_hits(point) == (Segment { p1: edge.p2, p2: edge.p1 }).ray_hits(point),
{
    let back: Segment = Segment { p1: edge.p2, p2: edge.p1 };
    let (ax, ay) = (edge.p1.x as int, edge.p1.y as int);
    let (bx, by) = (edge.p2.x as int, edge.p2.y as int);
    let (x, y) = (point.x as int, point.y as int);
    let t: int = turn(ax, ay, bx, by, x, y);
    lemma_turn_from_the_end(ax, ay, bx, by, x, y);
    assert(turn(bx, by, ax, ay, x, y) == -t) by (nonlinear_arith)
        requires
            t == (bx - ax) * (y - by) - (by - ay) * (x - bx),
            turn(bx, by, ax, ay, x, y) == (ax - bx) * (y - by) - (ay - by) * (x - bx),
    ;
    assert(t == (y - ay) * edge.dx() - edge.dy() * (x - ax)) by (nonlinear_arith)
        requires
            t == (bx - ax) * (y - ay) - (by - ay) * (x - ax),
            edge.dx() == bx - ax,
            edge.dy() == by - ay,
    ;
    assert(-t == (y - by) * back.dx() - back.dy() * (x - bx)) by (nonlinear_arith)
        requires
            -t == (ax - bx) * (y - by) - (ay - by) * (x - bx),
            back.dx() == ax - bx,
            back.dy() == ay - by,
    ;
}

/// `f` moved by one index.
pub open spec fn shifted(f: spec_fn(int) -> bool) -> spec_fn(int) -> bool {
    |j: int| f(j + 1)
}

/// `f` on the first `n` indices, counted from the far end.
pub open spec fn mirrored(f: spec_fn(int) -> bool, n: int) -> spec_fn(int) -> bool {
    |i: int| f(n - 1 - i)
}

/// The count over the first `n` indices is what index zero adds to the
/// count over the `n - 1` that follow it.
proof fn lemma_count_shifted(f: spec_fn(int) -> bool, n: nat)
    requires
        n > 0,
    ensures
        count_where(f, n) == count_where(shifted(f), (n - 1) as nat) + if f(0) {
            1nat
        } else {
            0nat
        },
    decreases n,
{
    if n > 1 {
        lemma_count_shifted(f, (n - 1) as nat);
        assert(shifted(f)(n - 2) == f(n - 1));
    } else {
        assert(count_where(f, 0) == 0);
        assert(count_where(shifted(f), 0) == 0);
    }
}

/// Counting from the far end gives the same count.
proof fn lemma_count_reversed(f: spec_fn(int) -> bool, n: nat)
    ensures
        count_where(mirrored(f, n as int), n) == count_where(f, n),
    decreases n,
{
    if n > 0 {
        lemma_count_shifted(f, n);
        lemma_count_reversed(shifted(f), (n - 1) as nat);
        lemma_count_agrees(
            mirrored(shifted(f), n - 1),
            mirrored(f, n as int),
            (n - 1) as nat,
        );
        assert(mirrored(f, n as int)(n - 1) == f(0));
    }
}

/// The ray crosses as many edges of a ring as of the ring that runs the
/// other way round.
pub proof fn lemma_crossings_of_reversed(ring: Seq<(i32, i32)>, point: Vector2)
    ensures
        crossings(ring_edges(ring.reverse()), point) == crossings(ring_edges(ring), point),
{
    let n: nat = ring.len();
    let back: Seq<(i32, i32)> = ring.reverse();
    lemma_crossings_count(ring_edges(ring), point);
    lemma_crossings_count(ring_edges(back), point);
    if n > 0 {
        let hit = |i: int| ring_edges(ring)[i].ray_hits(point);
        let hit_back = |i: int| ring_edges(back)[i].ray_hits(point);
        assert(hit_back(n - 1) == hit(n - 1)) by {
            lemma_hit_either_way(ring_edge(ring, n - 1), point);
        }
        assert forall|i: int| 0 <= i < n - 1 implies #[trigger] hit_back(i) == hit(
            n - 1 - 1 - i,
        ) by {
            lemma_hit_either_way(ring_edge(ring, n - 2 - i), point);
        }
        lemma_count_agrees(hit_back, mirrored(hit, n - 1), (n - 1) as nat);
        lemma_count_reversed(hit, (n - 1) as nat);
    }
}

/// The ring is strictly convex one way round or the other, and the point
/// lies strictly inside it.
pub open spec fn convex_around(ring: Seq<(i32, i32)>, point: Vector2) -> bool {
    ||| strictly_convex(ring) && strictly_inside(ring, point)
    ||| strictly_convex(ring.reverse()) && strictly_inside(ring.reverse(), point)
}

/// The ring is strictly convex one way round or the other, and the point
/// lies strictly outside it.
pub open spec fn convex_apart(ring: Seq<(i32, i32)>, point: Vector2) -> bool {
    ||| strictly_convex(ring) && strictly_outside(ring, point)
    ||| strictly_convex(ring.reverse()) && strictly_outside(ring.reverse(), point)
}

/// For a strictly convex polygon, the parity of the crossings tells inside
/// from outside: a centre strictly inside crosses an odd number of edges,
/// a centre strictly outside an even number.
pub proof fn lemma_parity_tells_inside(dot: Dot, polygon: &Polygon)
    ensures
        convex_around(polygon@, dot.pos) ==> dot.center_inside(polygon),
        convex_apart(polygon@, dot.pos) ==> !dot.center_inside(polygon),
{
    let ring: Seq<(i32, i32)> = polygon@;
    lemma_crossings_of_reversed(ring, dot.pos);
    if strictly_convex(ring) && strictly_inside(ring, dot.pos) {
        lemma_inside_crosses_once(ring, dot.pos);
    }
    if strictly_convex(ring.reverse()) && strictly_inside(ring.reverse(), dot.pos) {
        lemma_inside_crosses_once(ring.reverse(), dot.pos);
    }
    if strictly_convex(ring) && strictly_outside(ring, dot.pos) {
        lemma_outside_crosses_twice_or_never(ring, dot.pos);
    }
    if strictly_convex(ring.reverse()) && strictly_outside(ring.reverse(), dot.pos) {
        lemma_outside_crosses_twice_or_never(ring.reverse(), dot.pos);
    }
}

/// The segment taken from its second end to its first.
pub open spec fn flipped(edge: Segment) -> Segment {
    Segment { p1: edge.p2, p2: edge.p1 }
}

/// Taken the other way, a line has every place on its other side.
pub proof fn lemma_turn_flipped(ax: int, ay: int, bx: int, by: int, x: int, y: int)
    ensures
        turn(bx, by, ax, ay, x, y) == -turn(ax, ay, bx, by, x, y),
{
    lemma_turn_from_the_end(ax, ay, bx, by, x, y);
    assert(turn(bx, by, ax, ay, x, y) == -((bx - ax) * (y - by) - (by - ay) * (x - bx)))
        by (nonlinear_arith)
        requires
            turn(bx, by, ax, ay, x, y) == (ax - bx) * (y - by) - (ay - by) * (x - bx),
    ;
}

/// The index that edge `k` of a ring of `n` vertices has in the ring that
/// runs the other way round.
pub open spec fn mirror_edge(k: int, n: int) -> int {
    if k == n - 1 {
        n - 1
    } else {
        n - 2 - k
    }
}

/// Each edge of a ring is an edge of the ring that runs the other way
/// round, taken the other way; every place lies on its other side there.
pub proof fn lemma_edge_of_reversed(ring: Seq<(i32, i32)>, k: int, x: int, y: int)
    requires
        0 <= k < ring.len(),
    ensures
        0 <= mirror_edge(k, ring.len() as int) < ring.len(),
        mirror_edge(mirror_edge(k, ring.len() as int), ring.len() as int) == k,
        ring_edge(ring.reverse(), mirror_edge(k, ring.len() as int)) == flipped(
            ring_edge(ring, k),
        ),
        side(ring.reverse(), mirror_edge(k, ring.len() as int), x, y) == -side(ring, k, x, y),
{
    let n: int = ring.len() as int;
    let back: Seq<(i32, i32)> = ring.reverse();
    let m: int = mirror_edge(k, n);
    let j: int = successor(k, n);
    assert(back[m] == ring[j]);
    assert(back[successor(m, n)] == ring[k]);
    lemma_turn_flipped(
        ring[k].0 as int,
        ring[k].1 as int,
        ring[j].0 as int,
        ring[j].1 as int,
        x,
        y,
    );
}

/// The ring is strictly convex, one way round or the other.
pub open spec fn convex_ring(ring: Seq<(i32, i32)>) -> bool {
    strictly_convex(ring) || strictly_convex(ring.reverse())
}

/// Edge `k`, taken so that the ring lies on its positive side.
pub open spec fn guide(ring: Seq<(i32, i32)>, k: int) -> Segment {
    if strictly_convex(ring) {
        ring_edge(ring, k)
    } else {
        flipped(ring_edge(ring, k))
    }
}

/// On which side of edge `k` the place `(x, y)` lies, counted so that the
/// ring lies on the positive side whichever way round it runs.
pub open spec fn inward(ring: Seq<(i32, i32)>, k: int, x: int, y: int) -> int {
    if strictly_convex(ring) {
        side(ring, k, x, y)
    } else {
        -side(ring, k, x, y)
    }
}

/// The inward side is the turn around the guide.
pub proof fn lemma_inward_is_a_turn(ring: Seq<(i32, i32)>, k: int, x: int, y: int)
    requires
        0 <= k < ring.len(),
    ensures
        inward(ring, k, x, y) == turn(
            guide(ring, k).p1.x as int,
            guide(ring, k).p1.y as int,
            guide(ring, k).p2.x as int,
            guide(ring, k).p2.y as int,
            x,
            y,
        ),
        guide(ring, k) == ring_edge(ring, k) || guide(ring, k) == flipped(ring_edge(ring, k)),
{
    let j: int = successor(k, ring.len() as int);
    lemma_turn_flipped(
        ring[k].0 as int,
        ring[k].1 as int,
        ring[j].0 as int,
        ring[j].1 as int,
        x,
        y,
    );
}

/// Every vertex of a convex ring lies on the inward side of every edge, or
/// on the edge: on it exactly where the vertex is one of its ends. No edge
/// is without length.
pub proof fn lemma_vertices_lie_inward(ring: Seq<(i32, i32)>, k: int, m: int)
    requires
        convex_ring(ring),
        0 <= k < ring.len(),
        0 <= m < ring.len(),
    ensures
        inward(ring, k, ring[m].0 as int, ring[m].1 as int) >= 0,
        inward(ring, k, ring[m].0 as int, ring[m].1 as int) == 0 <==> m == k || m == successor(
            k,
            ring.len() as int,
        ),
        ring[k] != ring[successor(k, ring.len() as int)],
{
    let n: int = ring.len() as int;
    let j: int = successor(k, n);
    let other: int = successor(j, n);
    assert(ring.reverse().len() == ring.len());
    if strictly_convex(ring) {
        lemma_vertices_on_the_side(ring, k, m);
        lemma_vertices_on_the_side(ring, k, other);
        assert(side(ring, k, ring[m].0 as int, ring[m].1 as int) == side_of_vertex(ring, k, m));
    } else {
        let back: Seq<(i32, i32)> = ring.reverse();
        lemma_edge_of_reversed(ring, k, ring[m].0 as int, ring[m].1 as int);
        lemma_edge_of_reversed(ring, k, ring[other].0 as int, ring[other].1 as int);
        assert(back[n - 1 - m] == ring[m]);
        assert(back[n - 1 - other] == ring[other]);
        lemma_vertices_on_the_side(back, mirror_edge(k, n), n - 1 - m);
        lemma_vertices_on_the_side(back, mirror_edge(k, n), n - 1 - other);
        assert(side_of_vertex(back, mirror_edge(k, n), n - 1 - m) == side(
            back,
            mirror_edge(k, n),
            ring[m].0 as int,
            ring[m].1 as int,
        ));
        assert(side_of_vertex(back, mirror_edge(k, n), n - 1 - other) == side(
            back,
            mirror_edge(k, n),
            ring[other].0 as int,
            ring[other].1 as int,
        ));
    }
    if ring[k] == ring[j] {
        assert(turn(
            ring[k].0 as int,
            ring[k].1 as int,
            ring[k].0 as int,
            ring[k].1 as int,
            ring[other].0 as int,
            ring[other].1 as int,
        ) == 0) by (nonlinear_arith);
    }
}

/// A ring is strictly convex one way round at most.
pub proof fn lemma_one_winding(ring: Seq<(i32, i32)>)
    requires
        strictly_convex(ring),
    ensures
        !strictly_convex(ring.reverse()),
{
    let n: int = ring.len() as int;
    let back: Seq<(i32, i32)> = ring.reverse();
    assert(back.len() == ring.len());
    if strictly_convex(back) {
        lemma_edge_of_reversed(ring, 0, ring[2].0 as int, ring[2].1 as int);
        assert(back[n - 1 - 2] == ring[2]);
        lemma_vertices_on_the_side(ring, 0, 2);
        lemma_vertices_on_the_side(back, mirror_edge(0, n), n - 3);
        assert(side_of_vertex(back, mirror_edge(0, n), n - 3) == side(
            back,
            mirror_edge(0, n),
            ring[2].0 as int,
            ring[2].1 as int,
        ));
        assert(side_of_vertex(ring, 0, 2) == side(ring, 0, ring[2].0 as int, ring[2].1 as int));
    }
}

/// A point strictly inside a convex ring lies strictly on the inward side
/// of every edge.
pub proof fn lemma_inside_lies_inward(ring: Seq<(i32, i32)>, point: Vector2, k: int)
    requires
        convex_around(ring, point),
        0 <= k < ring.len(),
    ensures
        convex_ring(ring),
        inward(ring, k, point.x as int, point.y as int) > 0,
{
    assert(ring.reverse().len() == ring.len());
    if strictly_convex(ring) {
        lemma_one_winding(ring);
        assert(side(ring, k, point.x as int, point.y as int) > 0);
    } else {
        lemma_edge_of_reversed(ring, k, point.x as int, point.y as int);
        assert(side(
            ring.reverse(),
            mirror_edge(k, ring.len() as int),
            point.x as int,
            point.y as int,
        ) > 0);
    }
}

/// A point on the outward side of an edge of a convex ring lies strictly
/// outside the ring, and is told to be outside.
pub proof fn lemma_outward_is_outside(ring: Seq<(i32, i32)>, point: Vector2, k: int)
    requires
        convex_ring(ring),
        0 <= k < ring.len(),
        inward(ring, k, point.x as int, point.y as int) < 0,
    ensures
        convex_apart(ring, point),
        crossings(ring_edges(ring), point) % 2 == 0,
{
    assert(ring.reverse().len() == ring.len());
    lemma_crossings_of_reversed(ring, point);
    if strictly_convex(ring) {
        assert(side(ring, k, point.x as int, point.y as int) < 0);
        lemma_outside_crosses_twice_or_never(ring, point);
    } else {
        lemma_edge_of_reversed(ring, k, point.x as int, point.y as int);
        assert(side(
            ring.reverse(),
            mirror_edge(k, ring.len() as int),
            point.x as int,
            point.y as int,
        ) < 0);
        lemma_outside_crosses_twice_or_never(ring.reverse(), point);
    }
}

} // verus!
