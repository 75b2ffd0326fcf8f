//! Collision response: a particle against a polygon, and two particles
//! against each other.

use crate::entities::dot::{Dot, RADIUS};
use crate::entities::polygon::Polygon;
use crate::utils::vector::Vector2;
use vstd::prelude::*;

verus! {

/// The particle after its collision with `polygon` is resolved: pushed by
/// its push vector where it has one.
pub open spec fn after_polygon_collision(point: Dot, polygon: &Polygon) -> Dot {
    match point.spec_push_vector(polygon) {
        None => point,
        Some(vector) => point.spec_push(vector),
    }
}

/// Pushes the particle out of the polygon where the two collide.
pub fn handle_point_polygon_collision(point: &mut Dot, polygon: &Polygon)
    ensures
        *final(point) == after_polygon_collision(*old(point), polygon),
{
    match point.get_push_vector(polygon) {
        None => (),
        Some(vector) => {
            point.push(&vector);
        },
    }
}

/// The two positions are apart, but by less than `threshold`.
pub open spec fn too_close(pos1: Vector2, pos2: Vector2, threshold: i32) -> bool {
    0 < pos1.minus(pos2).length() < threshold
}

/// The particles after the overlap of particle `index_1` and particle
/// `index_2` is resolved. Where the two are apart by less than the radius
/// of the first, each is pushed one radius away from the other along the
/// line between them; where they are in one place, or far enough apart,
/// nothing moves.
#[verifier::opaque]
pub open spec fn after_point_collision(points: Seq<Dot>, index_1: int, index_2: int) -> Seq<Dot> {
    let distance: Vector2 = points[index_1].pos.minus(points[index_2].pos);
    let radius: i32 = points[index_1].radius;
    if too_close(points[index_1].pos, points[index_2].pos, radius) {
        let first: Seq<Dot> = points.update(
            index_1,
            points[index_1].spec_push(distance.normalize().scale(radius)),
        );
        first.update(
            index_2,
            first[index_2].spec_push(distance.normalize().negate().scale(radius)),
        )
    } else {
        points
    }
}

/// Pushes two particles of one list apart where they overlap.
pub fn handle_point_point_collision(points: &mut Vec<Dot>, index_1: usize, index_2: usize)
    requires
        index_1 < old(points)@.len(),
        index_2 < old(points)@.len(),
    ensures
        final(points)@ == after_point_collision(old(points)@, index_1 as int, index_2 as int),
        final(points)@.len() == old(points)@.len(),
        forall|j: int|
            0 <= j < old(points)@.len() && j != index_1 && j != index_2 ==> #[trigger] final(points)@[j]
                == old(points)@[j],
{
    proof {
        reveal(after_point_collision);
    }
    let distance: Vector2 = points[index_1].pos.minus(points[index_2].pos);
    let radius: i32 = points[index_1].radius;
    let length: i32 = distance.length();
    if length < radius && length > 0 {
        points[index_1].push(&distance.normalize().scale(radius));
        points[index_2].push(&distance.normalize().negate().scale(radius));
        assert(points@ =~= after_point_collision(old(points)@, index_1 as int, index_2 as int));
    }
}

/// The push that takes `pos1` one radius away from `pos2`, where the two
/// are apart by less than a radius; none where they are in one place or
/// far enough apart.
pub open spec fn spec_temp_point_point_collision(pos1: Vector2, pos2: Vector2) -> Option<Vector2> {
    if too_close(pos1, pos2, RADIUS) {
        Some(pos1.minus(pos2).normalize().scale(RADIUS))
    } else {
        None
    }
}

/// The push for the first of two sampled positions that overlap.
pub fn handle_temp_point_point_collision(pos1: Vector2, pos2: Vector2) -> (r: Option<Vector2>)
    ensures
        r == spec_temp_point_point_collision(pos1, pos2),
{
    let distance: Vector2 = pos1.minus(pos2);
    let length: i32 = distance.length();
    if length < RADIUS && length > 0 {
        let push: Vector2 = distance.normalize().scale(RADIUS);
        Some(push)
    } else {
        None
    }
}

} // verus!
