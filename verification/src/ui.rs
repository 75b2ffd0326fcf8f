//! What a click in the scene does.

use crate::entities::incomplete_polygon::IncompletePolygon;
use crate::entities::polygon::Polygon;
use crate::entities::soft_body::SoftBody;
use crate::utils::vector::Vector2;
use vstd::prelude::*;

verus! {

/// What a click creates.
pub enum Entities {
    /// A new soft body around the click.
    Dot,
    /// One more vertex of the polygon that is being drawn.
    Polygon,
}

/// Handles a click at `mouse`.
///
/// In `Dot` mode the body is replaced by a new one at rest around `mouse`.
/// In `Polygon` mode `mouse` is added to the drawing, unless the edge that
/// leads to it is counted as meeting a polygon of the scene.
pub fn spawn_entity(
    entity_type: &Entities,
    polygons: &mut Vec<Polygon>,
    drawing_polygon: &mut IncompletePolygon,
    body: &mut SoftBody,
    mouse: Vector2,
)
    ensures
        match *entity_type {
            Entities::Dot => {
                &&& final(body).rests_around(mouse.x, mouse.y)
                &&& final(body).well_formed()
                &&& final(polygons)@ == old(polygons)@
                &&& final(drawing_polygon).points@ == old(drawing_polygon).points@
            },
            Entities::Polygon => {
                &&& *final(body) == *old(body)
                &&& if old(drawing_polygon).crosses(old(polygons)@, mouse) {
                    &&& final(polygons)@ == old(polygons)@
                    &&& final(drawing_polygon).points@ == old(drawing_polygon).points@
                } else {
                    old(drawing_polygon).point_added(
                        old(polygons)@,
                        mouse,
                        final(drawing_polygon),
                        final(polygons)@,
                    )
                }
            },
        },
{
    match entity_type {
        Entities::Dot => {
            *body = SoftBody::new(mouse.x, mouse.y);
        },
        Entities::Polygon => {
            if !drawing_polygon.is_intersecting_with_polygons(polygons.as_slice(), mouse) {
                drawing_polygon.add_point(mouse, polygons);
            }
        },
    }
}

} // verus!
