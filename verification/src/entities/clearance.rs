//! Statements about the collision of a particle with a polygon.
//!
//! A particle whose disc stays clear of the bounding box of a polygon needs
//! no closer look: it is neither inside the polygon nor within one radius
//! of a foot on its boundary.
//!
//! A push across a horizontal or vertical edge of a convex polygon, wound
//! either way, ends the collision: afterwards the centre is outside, no foot
//! is nearer than one radius, and the particle is not pushed again. What a
//! push across an edge of any other direction leaves is stated in
//! `slanted`, up to the rounding of the grid.

use crate::entities::dot::{
    closest_offset, crossings, is_closest, lemma_closest_unique, lemma_reach_along_an_axis,
    offset_to, resolve, sign, Dot,
};
use crate::entities::parity::{
    convex_apart, convex_around, convex_ring, count_where, guide, inward, lemma_count_agrees,
    lemma_count_none, lemma_crossings_count, lemma_inside_lies_inward, lemma_inward_is_a_turn,
    lemma_outward_is_outside, lemma_parity_tells_inside, lemma_vertices_lie_inward, side,
    side_of_vertex, strictly_convex, turn,
};
use crate::entities::polygon::{ring_edge, ring_edges, successor, BoundingBox, Polygon};
use crate::entities::segment::{
    lemma_foot_of_level, lemma_foot_of_upright, lemma_projection_on_segment, Segment,
};
use crate::utils::fixed::{floor_sqrt, lemma_floor_sqrt_exists, magnitude};
use crate::utils::vector::{lemma_component_below_length, norm2, Vector2};
use vstd::prelude::*;

verus! {

/// The turn, written with the distances of the place from the two ends.
proof fn lemma_turn_by_ends(ax: int, ay: int, bx: int, by: int, x: int, y: int)
    by (nonlinear_arith)
    ensures
        turn(ax, ay, bx, by, x, y) == (y - ay) * (bx - x) + (y - by) * (x - ax),
{
}

/// The ray from a point that lies at or beyond both ends of an edge, in
/// the direction of the ray, does not hit the edge.
pub proof fn lemma_ray_starts_beyond(edge: Segment, point: Vector2)
    requires
        edge.p1.y <= point.y,
        edge.p2.y <= point.y,
    ensures
        !edge.ray_hits(point),
{
    let (ax, ay) = (edge.p1.x as int, edge.p1.y as int);
    let (bx, by) = (edge.p2.x as int, edge.p2.y as int);
    let (x, y) = (point.x as int, point.y as int);
    if edge.spans_x(point) {
        lemma_turn_by_ends(ax, ay, bx, by, x, y);
        let lhs: int = edge.dy() * (x - ax);
        let rhs: int = (y - ay) * edge.dx();
        assert(turn(ax, ay, bx, by, x, y) == rhs - lhs) by (nonlinear_arith)
            requires
                turn(ax, ay, bx, by, x, y) == (bx - ax) * (y - ay) - (by - ay) * (x - ax),
                lhs == (by - ay) * (x - ax),
                rhs == (y - ay) * (bx - ax),
        ;
        if edge.dx() > 0 {
            assert((y - ay) * (bx - x) + (y - by) * (x - ax) >= 0) by (nonlinear_arith)
                requires
                    y - ay >= 0,
                    y - by >= 0,
                    ax <= x < bx,
            ;
        } else {
            assert((y - ay) * (bx - x) + (y - by) * (x - ax) <= 0) by (nonlinear_arith)
                requires
                    y - ay >= 0,
                    y - by >= 0,
                    bx <= x < ax,
            ;
        }
    }
}

/// The ray from a point that lies before both ends of an edge, in the
/// direction of the ray, hits the edge exactly where the edge spans the
/// point's `x`.
pub proof fn lemma_ray_starts_before(edge: Segment, point: Vector2)
    requires
        point.y < edge.p1.y,
        point.y < edge.p2.y,
    ensures
        edge.ray_hits(point) == edge.spans_x(point),
{
    let (ax, ay) = (edge.p1.x as int, edge.p1.y as int);
    let (bx, by) = (edge.p2.x as int, edge.p2.y as int);
    let (x, y) = (point.x as int, point.y as int);
    if edge.spans_x(point) {
        lemma_turn_by_ends(ax, ay, bx, by, x, y);
        let lhs: int = edge.dy() * (x - ax);
        let rhs: int = (y - ay) * edge.dx();
        assert(turn(ax, ay, bx, by, x, y) == rhs - lhs) by (nonlinear_arith)
            requires
                turn(ax, ay, bx, by, x, y) == (bx - ax) * (y - ay) - (by - ay) * (x - ax),
                lhs == (by - ay) * (x - ax),
                rhs == (y - ay) * (bx - ax),
        ;
        if edge.dx() > 0 {
            assert((y - ay) * (bx - x) + (y - by) * (x - ax) < 0) by (nonlinear_arith)
                requires
                    y - ay < 0,
                    y - by < 0,
                    ax <= x < bx,
            ;
        } else {
            assert((y - ay) * (bx - x) + (y - by) * (x - ax) > 0) by (nonlinear_arith)
                requires
                    y - ay < 0,
                    y - by < 0,
                    bx <= x < ax,
            ;
        }
    }
}

/// Along the first `k` steps of a walk, `f` changes an even number of
/// times exactly where it ends as it began.
proof fn lemma_changes_along(f: spec_fn(int) -> bool, k: nat)
    ensures
        (count_where(|i: int| f(i) != f(i + 1), k) % 2 == 0) == (f(0) == f(k as int)),
    decreases k,
{
    if k > 0 {
        lemma_changes_along(f, (k - 1) as nat);
    }
}

/// Around a ring, `f` changes an even number of times.
proof fn lemma_changes_around(f: spec_fn(int) -> bool, n: nat)
    ensures
        count_where(|i: int| f(i) != f(successor(i, n as int)), n) % 2 == 0,
{
    if n > 0 {
        lemma_changes_along(f, (n - 1) as nat);
        lemma_count_agrees(
            |i: int| f(i) != f(successor(i, n as int)),
            |i: int| f(i) != f(i + 1),
            (n - 1) as nat,
        );
    }
}

/// The ray from a point outside the bounding box of a ring crosses an even
/// number of its edges.
pub proof fn lemma_outside_the_box_is_even(ring: Seq<(i32, i32)>, b: BoundingBox, point: Vector2)
    requires
        b.contains_all(ring),
        point.x < b.min_hor || point.x >= b.max_hor || point.y < b.min_ver || point.y
            >= b.max_ver,
    ensures
        crossings(ring_edges(ring), point) % 2 == 0,
{
    let n: nat = ring.len();
    let edges: Seq<Segment> = ring_edges(ring);
    let hit = |i: int| edges[i].ray_hits(point);
    lemma_crossings_count(edges, point);
    assert forall|i: int| 0 <= i < n implies {
        let edge: Segment = #[trigger] edges[i];
        &&& b.min_hor <= edge.p1.x <= b.max_hor
        &&& b.min_hor <= edge.p2.x <= b.max_hor
        &&& b.min_ver <= edge.p1.y <= b.max_ver
        &&& b.min_ver <= edge.p2.y <= b.max_ver
    } by {
        let j: int = successor(i, n as int);
        assert(b.min_hor <= ring[i].0 <= b.max_hor);
        assert(b.min_hor <= ring[j].0 <= b.max_hor);
    }
    if point.x < b.min_hor || point.x >= b.max_hor {
        assert forall|i: int| 0 <= i < n implies !#[trigger] hit(i) by {
            assert(!edges[i].spans_x(point));
        }
        lemma_count_none(hit, n);
    } else if point.y >= b.max_ver {
        assert forall|i: int| 0 <= i < n implies !#[trigger] hit(i) by {
            lemma_ray_starts_beyond(edges[i], point);
        }
        lemma_count_none(hit, n);
    } else {
        let at_or_left = |i: int| ring[i].0 <= point.x;
        assert forall|i: int| 0 <= i < n implies #[trigger] hit(i) == (at_or_left(i)
            != at_or_left(successor(i, n as int))) by {
            lemma_ray_starts_before(edges[i], point);
        }
        lemma_count_agrees(
            hit,
            |i: int| at_or_left(i) != at_or_left(successor(i, n as int)),
            n,
        );
        lemma_changes_around(at_or_left, n);
    }
}

/// A vector is at least as long as each of its components is large, as
/// far as lengths go.
pub proof fn lemma_length_covers_components(v: Vector2, reach: i32)
    requires
        v.x >= reach || -v.x >= reach || v.y >= reach || -v.y >= reach,
    ensures
        v.length() >= reach,
{
    let n: int = norm2(v.x as int, v.y as int);
    assert(n >= 0) by (nonlinear_arith)
        requires
            n == v.x * v.x + v.y * v.y,
    ;
    lemma_floor_sqrt_exists(n);
    lemma_component_below_length(v.x as int, v.y as int, floor_sqrt(n));
}

/// The foot of a centre on an edge inside a box that the disc stays clear
/// of is at least one radius away from the centre.
pub proof fn lemma_foot_beyond_reach(edge: Segment, b: BoundingBox, dot: Dot)
    requires
        edge.covers(dot.pos),
        b.min_hor <= edge.p1.x <= b.max_hor,
        b.min_hor <= edge.p2.x <= b.max_hor,
        b.min_ver <= edge.p1.y <= b.max_ver,
        b.min_ver <= edge.p2.y <= b.max_ver,
        dot.radius > 0,
        !dot.overlaps_box(b),
    ensures
        offset_to(edge, dot.pos).length() >= dot.radius,
{
    lemma_projection_on_segment(edge, dot.pos);
    lemma_length_covers_components(offset_to(edge, dot.pos), dot.radius);
}

/// The exit at the bounding box loses nothing. A particle whose disc
/// stays clear of the bounding box of a polygon has its centre outside the
/// polygon and every foot at least one radius away: looked at closely, it
/// would not be pushed either.
pub proof fn lemma_box_exit_is_sound(dot: Dot, polygon: &Polygon)
    requires
        polygon.well_formed(),
        dot.radius > 0,
        !dot.overlaps_box(polygon.frame()),
    ensures
        !dot.center_inside(polygon),
        match closest_offset(polygon.edges(), dot.pos) {
            Some(closest) => closest.length() >= dot.radius && resolve(
                closest,
                dot.radius,
                dot.center_inside(polygon),
            ) is None,
            None => true,
        },
{
    let ring: Seq<(i32, i32)> = polygon@;
    let n: int = ring.len() as int;
    let b: BoundingBox = polygon.frame();
    let edges: Seq<Segment> = polygon.edges();
    lemma_outside_the_box_is_even(ring, b, dot.pos);
    if exists|k: int| is_closest(edges, dot.pos, k) {
        let k: int = choose|k: int| is_closest(edges, dot.pos, k);
        let j: int = successor(k, n);
        assert(b.min_hor <= ring[k].0 <= b.max_hor);
        assert(b.min_hor <= ring[j].0 <= b.max_hor);
        assert(edges[k] == ring_edge(ring, k));
        lemma_foot_beyond_reach(edges[k], b, dot);
    }
}

/// The coordinate is small enough for sums of a few of its kind to stay on
/// the grid.
pub open spec fn modest(v: int) -> bool {
    -0x1000_0000 <= v <= 0x1000_0000
}

/// The push of a particle that overlaps the box, from the edge that is
/// its closest.
proof fn lemma_push_from_the_closest(dot: Dot, polygon: &Polygon, k: int)
    requires
        dot.overlaps_box(polygon.frame()),
        is_closest(polygon.edges(), dot.pos, k),
    ensures
        dot.spec_push_vector(polygon) == resolve(
            offset_to(polygon.edge(k), dot.pos),
            dot.radius,
            dot.center_inside(polygon),
        ),
{
    reveal(Dot::spec_push_vector);
    let edges: Seq<Segment> = polygon.edges();
    let chosen: int = choose|c: int| is_closest(edges, dot.pos, c);
    lemma_closest_unique(edges, dot.pos, k, chosen);
}

/// A centre strictly inside a convex polygon is told to be inside, and its
/// disc overlaps the bounding box.
pub proof fn lemma_inside_overlaps_the_box(dot: Dot, polygon: &Polygon)
    requires
        polygon.well_formed(),
        convex_around(polygon@, dot.pos),
        dot.radius > 0,
    ensures
        dot.center_inside(polygon),
        dot.overlaps_box(polygon.frame()),
{
    lemma_parity_tells_inside(dot, polygon);
    if !dot.overlaps_box(polygon.frame()) {
        lemma_box_exit_is_sound(dot, polygon);
    }
}

/// The way from a point to its foot on a horizontal or vertical edge that
/// the point does not lie on leads straight across, and is not zero.
proof fn lemma_offset_to_an_axis_edge(edge: Segment, point: Vector2)
    requires
        edge.p1.x == edge.p2.x || edge.p1.y == edge.p2.y,
        edge.covers(point),
        turn(
            edge.p1.x as int,
            edge.p1.y as int,
            edge.p2.x as int,
            edge.p2.y as int,
            point.x as int,
            point.y as int,
        ) != 0,
        modest(edge.p1.x as int),
        modest(edge.p1.y as int),
        modest(point.x as int),
        modest(point.y as int),
    ensures
        edge.dy() == 0 ==> edge.dx() != 0 && offset_to(edge, point) == (Vector2 {
            x: 0,
            y: (edge.p1.y - point.y) as i32,
        }) && edge.p1.y != point.y,
        edge.dy() != 0 ==> edge.dx() == 0 && offset_to(edge, point) == (Vector2 {
            x: (edge.p1.x - point.x) as i32,
            y: 0,
        }) && edge.p1.x != point.x,
{
    if edge.p1.y == edge.p2.y {
        assert(edge.dy() * (point.x - edge.p1.x) == 0) by (nonlinear_arith)
            requires
                edge.dy() == 0,
        ;
        assert(edge.dx() != 0 && point.y != edge.p1.y) by (nonlinear_arith)
            requires
                edge.dx() * (point.y - edge.p1.y) != 0,
        ;
        lemma_foot_of_level(edge, point);
    } else {
        assert(edge.dx() * (point.y - edge.p1.y) == 0) by (nonlinear_arith)
            requires
                edge.dx() == 0,
        ;
        assert(point.x != edge.p1.x) by (nonlinear_arith)
            requires
                -(edge.dy() * (point.x - edge.p1.x)) != 0,
        ;
        lemma_foot_of_upright(edge, point);
    }
}

/// The particle collides with the convex polygon across edge `k`: that
/// edge is the one closest to its centre, and the centre lies strictly
/// inside the polygon, or on the outward side of the edge with its foot
/// there less than one radius away.
pub open spec fn collides_across(dot: Dot, polygon: &Polygon, k: int) -> bool {
    &&& is_closest(polygon.edges(), dot.pos, k)
    &&& {
        ||| convex_around(polygon@, dot.pos)
        ||| convex_ring(polygon@) && inward(polygon@, k, dot.pos.x as int, dot.pos.y as int) < 0
            && offset_to(polygon.edge(k), dot.pos).length() < dot.radius
    }
}

/// Edge `k` is horizontal or vertical.
pub open spec fn along_an_axis(polygon: &Polygon, k: int) -> bool {
    polygon.edge(k).p1.x == polygon.edge(k).p2.x || polygon.edge(k).p1.y == polygon.edge(k).p2.y
}

/// How far a push along an axis takes a coordinate of the centre from the
/// foot: one radius beyond the foot for a centre inside, one radius back
/// for a centre outside; nothing across the axis of the push.
pub open spec fn beyond_the_foot(offset: int, radius: int, inside: bool) -> int {
    if offset == 0 {
        0
    } else if (offset > 0) == inside {
        radius
    } else {
        -radius
    }
}

/// Where a push along an axis leaves the centre: one radius from the foot.
proof fn lemma_pushed_along_an_axis(dot: Dot, closest: Vector2, inside: bool)
    requires
        closest.x == 0 || closest.y == 0,
        closest != Vector2::zero(),
        !dot.freeze,
        0 < dot.radius <= 0x1000_0000,
        modest(dot.pos.x as int),
        modest(dot.pos.y as int),
        modest(dot.pos.x + closest.x),
        modest(dot.pos.y + closest.y),
        inside || closest.length() < dot.radius,
    ensures
        resolve(closest, dot.radius, inside) is Some,
        ({
            let after: Dot = dot.spec_push(resolve(closest, dot.radius, inside)->0);
            &&& after.pos.x == dot.pos.x + closest.x + beyond_the_foot(
                closest.x as int,
                dot.radius as int,
                inside,
            )
            &&& after.pos.y == dot.pos.y + closest.y + beyond_the_foot(
                closest.y as int,
                dot.radius as int,
                inside,
            )
            &&& after.radius == dot.radius
        }),
{
    lemma_reach_along_an_axis(closest, dot.radius);
    let reach: Vector2 = closest.normalize().scale(dot.radius);
    assert(reach.x == sign(closest.x as int) * dot.radius);
    assert(reach.y == sign(closest.y as int) * dot.radius);
    assert(reach.x == beyond_the_foot(closest.x as int, dot.radius as int, true) && reach.y
        == beyond_the_foot(closest.y as int, dot.radius as int, true)) by (nonlinear_arith)
        requires
            reach.x == sign(closest.x as int) * dot.radius,
            reach.y == sign(closest.y as int) * dot.radius,
    ;
}

/// One radius from a horizontal or vertical line, across from a place on
/// its positive side or on the side of a place on its negative side, the
/// turn is negative: the size of the line's extent times `radius`.
proof fn lemma_turn_after_the_push(
    edge: Segment,
    from: Vector2,
    closest: Vector2,
    to: (int, int),
    radius: int,
    inside: bool,
)
    requires
        edge.p1.x == edge.p2.x || edge.p1.y == edge.p2.y,
        edge.p1 != edge.p2,
        radius > 0,
        inside ==> turn(
            edge.p1.x as int,
            edge.p1.y as int,
            edge.p2.x as int,
            edge.p2.y as int,
            from.x as int,
            from.y as int,
        ) > 0,
        !inside ==> turn(
            edge.p1.x as int,
            edge.p1.y as int,
            edge.p2.x as int,
            edge.p2.y as int,
            from.x as int,
            from.y as int,
        ) < 0,
        edge.dy() == 0 ==> closest.x == 0 && closest.y == edge.p1.y - from.y,
        edge.dy() != 0 ==> closest.y == 0 && closest.x == edge.p1.x - from.x,
        to.0 == from.x + closest.x + beyond_the_foot(closest.x as int, radius, inside),
        to.1 == from.y + closest.y + beyond_the_foot(closest.y as int, radius, inside),
    ensures
        turn(
            edge.p1.x as int,
            edge.p1.y as int,
            edge.p2.x as int,
            edge.p2.y as int,
            to.0,
            to.1,
        ) == -(magnitude(edge.dx()) + magnitude(edge.dy())) * radius,
        -(magnitude(edge.dx()) + magnitude(edge.dy())) * radius < 0,
{
    let (ax, ay) = (edge.p1.x as int, edge.p1.y as int);
    let (bx, by) = (edge.p2.x as int, edge.p2.y as int);
    lemma_turn_on_an_axis_line(ax, ay, bx, by, from.x as int, from.y as int);
    lemma_turn_on_an_axis_line(ax, ay, bx, by, to.0, to.1);
    if ay == by {
        let ex: int = bx - ax;
        let step: int = to.1 - ay;
        assert(from.y != ay) by (nonlinear_arith)
            requires
                ex * (from.y - ay) != 0,
        ;
        assert(step == beyond_the_foot(closest.y as int, radius, inside));
        assert(ex * step == -magnitude(ex) * radius) by (nonlinear_arith)
            requires
                ex != 0,
                radius > 0,
                inside ==> ex * (from.y - ay) > 0,
                !inside ==> ex * (from.y - ay) < 0,
                step == if (ay - from.y > 0) == inside {
                    radius
                } else {
                    -radius
                },
        ;
        assert(-(magnitude(ex) + 0) * radius < 0) by (nonlinear_arith)
            requires
                ex != 0,
                radius > 0,
        ;
    } else {
        let ey: int = ay - by;
        let step: int = to.0 - ax;
        assert(from.x != ax) by (nonlinear_arith)
            requires
                ey * (from.x - ax) != 0,
        ;
        assert(step == beyond_the_foot(closest.x as int, radius, inside));
        assert(ey * step == -magnitude(ey) * radius) by (nonlinear_arith)
            requires
                ey != 0,
                radius > 0,
                inside ==> ey * (from.x - ax) > 0,
                !inside ==> ey * (from.x - ax) < 0,
                step == if (ax - from.x > 0) == inside {
                    radius
                } else {
                    -radius
                },
        ;
        assert(-(0 + magnitude(ey)) * radius < 0) by (nonlinear_arith)
            requires
                ey != 0,
                radius > 0,
        ;
    }
}

/// A centre less than one radius from a foot on an edge of a polygon has
/// its disc overlap the bounding box.
proof fn lemma_short_offset_overlaps_the_box(dot: Dot, b: BoundingBox, edge: Segment)
    requires
        b.min_hor <= edge.p1.x <= b.max_hor,
        b.min_hor <= edge.p2.x <= b.max_hor,
        b.min_ver <= edge.p1.y <= b.max_ver,
        b.min_ver <= edge.p2.y <= b.max_ver,
        edge.covers(dot.pos),
        offset_to(edge, dot.pos).length() < dot.radius,
        modest(dot.pos.x as int),
        modest(dot.pos.y as int),
        modest(edge.p1.x as int),
        modest(edge.p1.y as int),
        modest(edge.p2.x as int),
        modest(edge.p2.y as int),
    ensures
        dot.overlaps_box(b),
{
    lemma_foot_between_the_ends(edge, dot.pos);
    let offset: Vector2 = offset_to(edge, dot.pos);
    let n: int = norm2(offset.x as int, offset.y as int);
    assert(n >= 0) by (nonlinear_arith)
        requires
            n == offset.x * offset.x + offset.y * offset.y,
    ;
    lemma_floor_sqrt_exists(n);
    lemma_component_below_length(offset.x as int, offset.y as int, floor_sqrt(n));
}

/// The ends of an edge of a well-formed polygon lie in its bounding box.
proof fn lemma_edge_in_the_box(polygon: &Polygon, k: int)
    requires
        polygon.well_formed(),
        0 <= k < polygon@.len(),
    ensures
        polygon.frame().min_hor <= polygon.edge(k).p1.x <= polygon.frame().max_hor,
        polygon.frame().min_hor <= polygon.edge(k).p2.x <= polygon.frame().max_hor,
        polygon.frame().min_ver <= polygon.edge(k).p1.y <= polygon.frame().max_ver,
        polygon.frame().min_ver <= polygon.edge(k).p2.y <= polygon.frame().max_ver,
{
    let ring: Seq<(i32, i32)> = polygon@;
    let j: int = successor(k, ring.len() as int);
    let b: BoundingBox = polygon.frame();
    assert(b.min_hor <= ring[k].0 <= b.max_hor);
    assert(b.min_hor <= ring[j].0 <= b.max_hor);
}

/// The coordinates of the particle and of the polygon are small.
pub open spec fn modest_scene(dot: Dot, polygon: &Polygon) -> bool {
    &&& 0 < dot.radius <= 0x1000_0000
    &&& modest(dot.pos.x as int)
    &&& modest(dot.pos.y as int)
    &&& forall|i: int|
        0 <= i < polygon@.len() ==> modest((#[trigger] polygon@[i]).0 as int) && modest(
            polygon@[i].1 as int,
        )
}

/// What holds of the closest edge of a particle that collides across it:
/// the edge has some length, its ends are small, it covers the centre, and
/// the centre is on the side of it that the collision tells.
pub proof fn lemma_colliding_edge(dot: Dot, polygon: &Polygon, k: int)
    requires
        polygon.well_formed(),
        collides_across(dot, polygon, k),
        modest_scene(dot, polygon),
    ensures
        0 <= k < polygon@.len(),
        convex_ring(polygon@),
        polygon.edge(k).p1 != polygon.edge(k).p2,
        polygon.edge(k).covers(dot.pos),
        modest(polygon.edge(k).p1.x as int),
        modest(polygon.edge(k).p1.y as int),
        modest(polygon.edge(k).p2.x as int),
        modest(polygon.edge(k).p2.y as int),
        convex_around(polygon@, dot.pos) ==> inward(
            polygon@,
            k,
            dot.pos.x as int,
            dot.pos.y as int,
        ) > 0 && dot.center_inside(polygon),
        !convex_around(polygon@, dot.pos) ==> inward(
            polygon@,
            k,
            dot.pos.x as int,
            dot.pos.y as int,
        ) < 0 && offset_to(polygon.edge(k), dot.pos).length() < dot.radius && !dot.center_inside(
            polygon,
        ),
{
    let ring: Seq<(i32, i32)> = polygon@;
    let j: int = successor(k, ring.len() as int);
    assert(polygon.edges()[k] == polygon.edge(k));
    assert(modest(ring[k].0 as int) && modest(ring[j].0 as int));
    if convex_around(ring, dot.pos) {
        lemma_inside_lies_inward(ring, dot.pos, k);
        lemma_parity_tells_inside(dot, polygon);
    } else {
        lemma_outward_is_outside(ring, dot.pos, k);
    }
    lemma_vertices_lie_inward(ring, k, k);
}

/// A particle that collides across an edge overlaps the bounding box, and
/// its push is the one for that edge.
pub proof fn lemma_push_across(dot: Dot, polygon: &Polygon, k: int)
    requires
        polygon.well_formed(),
        collides_across(dot, polygon, k),
        modest_scene(dot, polygon),
    ensures
        dot.spec_push_vector(polygon) == resolve(
            offset_to(polygon.edge(k), dot.pos),
            dot.radius,
            convex_around(polygon@, dot.pos),
        ),
{
    lemma_colliding_edge(dot, polygon, k);
    if convex_around(polygon@, dot.pos) {
        lemma_inside_overlaps_the_box(dot, polygon);
    } else {
        lemma_edge_in_the_box(polygon, k);
        lemma_short_offset_overlaps_the_box(dot, polygon.frame(), polygon.edge(k));
    }
    lemma_push_from_the_closest(dot, polygon, k);
}

/// A push across a horizontal or vertical edge of a convex polygon leaves
/// the centre strictly outside, exactly one radius beyond the line of that
/// edge.
pub proof fn lemma_pushed_beyond_the_edge(dot: Dot, polygon: &Polygon, k: int)
    requires
        polygon.well_formed(),
        collides_across(dot, polygon, k),
        along_an_axis(polygon, k),
        !dot.freeze,
        modest_scene(dot, polygon),
    ensures
        dot.spec_push_vector(polygon) is Some,
        ({
            let after: Dot = dot.spec_push(dot.spec_push_vector(polygon)->0);
            &&& inward(polygon@, k, after.pos.x as int, after.pos.y as int) == -(magnitude(
                polygon.edge(k).dx(),
            ) + magnitude(polygon.edge(k).dy())) * dot.radius
            &&& inward(polygon@, k, after.pos.x as int, after.pos.y as int) < 0
            &&& convex_apart(polygon@, after.pos)
            &&& !after.center_inside(polygon)
            &&& after.radius == dot.radius
        }),
{
    let ring: Seq<(i32, i32)> = polygon@;
    let edge: Segment = polygon.edge(k);
    let inside: bool = convex_around(ring, dot.pos);
    let closest: Vector2 = offset_to(edge, dot.pos);
    lemma_colliding_edge(dot, polygon, k);
    lemma_push_across(dot, polygon, k);
    lemma_inward_is_a_turn(ring, k, dot.pos.x as int, dot.pos.y as int);
    lemma_offset_to_an_axis_edge(edge, dot.pos);
    lemma_pushed_along_an_axis(dot, closest, inside);
    let after: Dot = dot.spec_push(resolve(closest, dot.radius, inside)->0);
    lemma_inward_is_a_turn(ring, k, after.pos.x as int, after.pos.y as int);
    lemma_turn_after_the_push(
        guide(ring, k),
        dot.pos,
        closest,
        (after.pos.x as int, after.pos.y as int),
        dot.radius as int,
        inside,
    );
    lemma_outward_is_outside(ring, after.pos, k);
}

/// A number whose product with an extent is the size of the extent times
/// minus `radius` lies `radius` from zero, against the sign of the extent.
proof fn lemma_distance_against_the_extent(extent: int, t: int, radius: int)
    by (nonlinear_arith)
    requires
        extent != 0,
        extent * t == -magnitude(extent) * radius,
    ensures
        extent > 0 ==> t == -radius,
        extent < 0 ==> t == radius,
{
}

/// A number whose product with an extent is not negative has the sign of
/// the extent, or is zero.
proof fn lemma_sign_with_the_extent(extent: int, u: int)
    by (nonlinear_arith)
    requires
        extent != 0,
        extent * u >= 0,
    ensures
        extent > 0 ==> u >= 0,
        extent < 0 ==> u <= 0,
{
}

/// The turn with respect to a horizontal line depends on the height alone,
/// the turn with respect to a vertical line on the place along `x` alone.
proof fn lemma_turn_on_an_axis_line(ax: int, ay: int, bx: int, by: int, x: int, y: int)
    by (nonlinear_arith)
    requires
        ax == bx || ay == by,
    ensures
        ay == by ==> turn(ax, ay, bx, by, x, y) == (bx - ax) * (y - ay),
        ay != by ==> turn(ax, ay, bx, by, x, y) == (ay - by) * (x - ax),
{
}

/// The foot of a covered point lies between the ends of the segment,
/// along each axis.
proof fn lemma_foot_between_the_ends(edge: Segment, point: Vector2)
    requires
        edge.covers(point),
    ensures
        edge.p1.x <= edge.foot(point).x <= edge.p2.x || edge.p2.x <= edge.foot(point).x
            <= edge.p1.x,
        edge.p1.y <= edge.foot(point).y <= edge.p2.y || edge.p2.y <= edge.foot(point).y
            <= edge.p1.y,
{
    lemma_projection_on_segment(edge, point);
}

/// A centre one radius beyond a horizontal or vertical line is at least
/// one radius from its foot on any segment that has both ends on the
/// positive side of the line or on it.
proof fn lemma_far_across_an_axis_line(edge: Segment, other: Segment, centre: Vector2, radius: i32)
    requires
        edge.p1.x == edge.p2.x || edge.p1.y == edge.p2.y,
        edge.p1 != edge.p2,
        other.covers(centre),
        0 < radius,
        turn(
            edge.p1.x as int,
            edge.p1.y as int,
            edge.p2.x as int,
            edge.p2.y as int,
            centre.x as int,
            centre.y as int,
        ) == -(magnitude(edge.dx()) + magnitude(edge.dy())) * radius,
        turn(
            edge.p1.x as int,
            edge.p1.y as int,
            edge.p2.x as int,
            edge.p2.y as int,
            other.p1.x as int,
            other.p1.y as int,
        ) >= 0,
        turn(
            edge.p1.x as int,
            edge.p1.y as int,
            edge.p2.x as int,
            edge.p2.y as int,
            other.p2.x as int,
            other.p2.y as int,
        ) >= 0,
    ensures
        offset_to(other, centre).length() >= radius,
{
    let (ax, ay) = (edge.p1.x as int, edge.p1.y as int);
    let (bx, by) = (edge.p2.x as int, edge.p2.y as int);
    lemma_turn_on_an_axis_line(ax, ay, bx, by, centre.x as int, centre.y as int);
    lemma_turn_on_an_axis_line(ax, ay, bx, by, other.p1.x as int, other.p1.y as int);
    lemma_turn_on_an_axis_line(ax, ay, bx, by, other.p2.x as int, other.p2.y as int);
    lemma_foot_between_the_ends(other, centre);
    let foot: Vector2 = other.foot(centre);
    if ay == by {
        lemma_distance_against_the_extent(bx - ax, centre.y - ay, radius as int);
        lemma_sign_with_the_extent(bx - ax, other.p1.y - ay);
        lemma_sign_with_the_extent(bx - ax, other.p2.y - ay);
        assert(foot.y - centre.y >= radius || centre.y - foot.y >= radius);
    } else {
        lemma_distance_against_the_extent(ay - by, centre.x - ax, radius as int);
        lemma_sign_with_the_extent(ay - by, other.p1.x - ax);
        lemma_sign_with_the_extent(ay - by, other.p2.x - ax);
        assert(foot.x - centre.x >= radius || centre.x - foot.x >= radius);
    }
    lemma_length_covers_components(offset_to(other, centre), radius);
}

/// After a push across a horizontal or vertical edge `k` of a convex ring,
/// every foot of the centre on an edge of the ring is at least one radius
/// away.
pub proof fn lemma_feet_beyond_the_edge(
    ring: Seq<(i32, i32)>,
    k: int,
    centre: Vector2,
    radius: i32,
    j: int,
)
    requires
        convex_ring(ring),
        0 <= k < ring.len(),
        0 <= j < ring.len(),
        ring_edge(ring, k).p1.x == ring_edge(ring, k).p2.x || ring_edge(ring, k).p1.y
            == ring_edge(ring, k).p2.y,
        0 < radius,
        inward(ring, k, centre.x as int, centre.y as int) == -(magnitude(ring_edge(ring, k).dx())
            + magnitude(ring_edge(ring, k).dy())) * radius,
        ring_edge(ring, j).covers(centre),
    ensures
        offset_to(ring_edge(ring, j), centre).length() >= radius,
{
    let n: int = ring.len() as int;
    let sj: int = successor(j, n);
    lemma_vertices_lie_inward(ring, k, j);
    lemma_vertices_lie_inward(ring, k, sj);
    lemma_inward_is_a_turn(ring, k, centre.x as int, centre.y as int);
    lemma_inward_is_a_turn(ring, k, ring[j].0 as int, ring[j].1 as int);
    lemma_inward_is_a_turn(ring, k, ring[sj].0 as int, ring[sj].1 as int);
    lemma_far_across_an_axis_line(guide(ring, k), ring_edge(ring, j), centre, radius);
}

/// A push along an axis ends the collision. A particle that is not frozen
/// and collides with a convex polygon, wound either way, across a
/// horizontal or vertical edge is pushed; after the push its centre lies
/// strictly outside the polygon, every foot of it on an edge of the polygon
/// is at least one radius away, and it is not pushed again.
pub proof fn lemma_axis_push_ends_the_collision(dot: Dot, polygon: &Polygon, k: int)
    requires
        polygon.well_formed(),
        collides_across(dot, polygon, k),
        along_an_axis(polygon, k),
        !dot.freeze,
        modest_scene(dot, polygon),
    ensures
        dot.spec_push_vector(polygon) is Some,
        ({
            let after: Dot = dot.spec_push(dot.spec_push_vector(polygon)->0);
            &&& convex_apart(polygon@, after.pos)
            &&& !after.center_inside(polygon)
            &&& forall|j: int|
                0 <= j < polygon@.len() && (#[trigger] polygon.edge(j)).covers(after.pos)
                    ==> offset_to(polygon.edge(j), after.pos).length() >= dot.radius
            &&& after.spec_push_vector(polygon) is None
        }),
{
    let ring: Seq<(i32, i32)> = polygon@;
    lemma_colliding_edge(dot, polygon, k);
    lemma_pushed_beyond_the_edge(dot, polygon, k);
    let after: Dot = dot.spec_push(dot.spec_push_vector(polygon)->0);
    assert forall|j: int|
        0 <= j < ring.len() && (#[trigger] polygon.edge(j)).covers(after.pos) implies offset_to(
        polygon.edge(j),
        after.pos,
    ).length() >= dot.radius by {
        lemma_feet_beyond_the_edge(ring, k, after.pos, dot.radius, j);
    }
    lemma_no_push_where_all_feet_are_far(after, polygon);
}

/// A particle with its centre outside and every foot at least one radius
/// away is not pushed.
proof fn lemma_no_push_where_all_feet_are_far(dot: Dot, polygon: &Polygon)
    requires
        !dot.center_inside(polygon),
        forall|j: int|
            0 <= j < polygon@.len() && (#[trigger] polygon.edge(j)).covers(dot.pos) ==> offset_to(
                polygon.edge(j),
                dot.pos,
            ).length() >= dot.radius,
    ensures
        dot.spec_push_vector(polygon) is None,
{
    reveal(Dot::spec_push_vector);
    let edges: Seq<Segment> = polygon.edges();
    if exists|c: int| is_closest(edges, dot.pos, c) {
        let c: int = choose|c: int| is_closest(edges, dot.pos, c);
        assert(edges[c] == polygon.edge(c));
        assert(polygon.edge(c).covers(dot.pos));
    }
}

/// The floor of a screen that is wider than forty units is strictly
/// convex, and all its edges are horizontal or vertical: every push out
/// of the floor ends the collision.
pub proof fn lemma_floor_is_convex(screen_width: i32, screen_height: i32)
    requires
        40_000 < screen_width,
        i32::MIN + 50_000 <= screen_height,
    ensures
        strictly_convex(Polygon::floor_vertices(screen_width, screen_height)),
        forall|k: int|
            0 <= k < 4 ==> {
                let edge: Segment = #[trigger] ring_edge(
                    Polygon::floor_vertices(screen_width, screen_height),
                    k,
                );
                edge.p1.x == edge.p2.x || edge.p1.y == edge.p2.y
            },
{
    let ring: Seq<(i32, i32)> = Polygon::floor_vertices(screen_width, screen_height);
    let left: int = 20_000;
    let right: int = screen_width - 20_000;
    let top: int = screen_height - 50_000;
    let bottom: int = screen_height - 20_000;
    assert(ring.len() == 4);
    assert(ring[0] == (left as i32, top as i32));
    assert(ring[1] == (right as i32, top as i32));
    assert(ring[2] == (right as i32, bottom as i32));
    assert(ring[3] == (left as i32, bottom as i32));
    assert forall|i: int, k: int|
        0 <= i < 4 && 0 <= k < 4 && k != i && k != successor(i, 4) implies #[trigger] side_of_vertex(
        ring,
        i,
        k,
    ) > 0 by {
        let j: int = successor(i, 4);
        assert(side_of_vertex(ring, i, k) == (ring[j].0 - ring[i].0) * (ring[k].1 - ring[i].1)
            - (ring[j].1 - ring[i].1) * (ring[k].0 - ring[i].0));
        assert((right - left) * 30_000 > 0);
        if i == 0 {
            assert(side_of_vertex(ring, i, k) == (right - left) * 30_000 - 0 * (ring[k].0
                - left));
        } else if i == 1 {
            assert(side_of_vertex(ring, i, k) == 0 * (ring[k].1 - top) - 30_000 * (left - right));
        } else if i == 2 {
            assert(side_of_vertex(ring, i, k) == (left - right) * (-30_000) - 0 * (ring[k].0
                - right));
        } else {
            assert(side_of_vertex(ring, i, k) == 0 * (ring[k].1 - bottom) - (-30_000) * (right
                - left));
        }
    }
}

} // verus!
