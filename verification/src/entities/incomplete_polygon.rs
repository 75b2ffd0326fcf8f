//! A polygon that is still being drawn, vertex by vertex.

use crate::entities::polygon::Polygon;
use crate::entities::segment::Segment;
use crate::utils::math::{do_segments_intersect, counted_as_meeting};
use crate::utils::vector::Vector2;
use vstd::prelude::*;

verus! {

/// How near to the first vertex a point closes the polygon: thirty units.
pub const SNAP_DISTANCE: i32 = 30_000;

/// The vertices drawn so far.
pub struct IncompletePolygon {
    pub points: Vec<Vector2>,
}

impl Default for IncompletePolygon {
    fn default() -> (r: Self)
        ensures
            r.points@ == Seq::<Vector2>::empty(),
    {
        Self::new()
    }
}

/// The coordinate pairs of a list of points.
pub open spec fn coordinates(points: Seq<Vector2>) -> Seq<(i32, i32)> {
    Seq::new(points.len(), |i: int| (points[i].x, points[i].y))
}

impl IncompletePolygon {
    /// A drawing without vertices.
    pub fn new() -> (r: Self)
        ensures
            r.points@ == Seq::<Vector2>::empty(),
    {
        Self { points: Vec::new() }
    }

    /// The edge that a vertex at `mouse` would add.
    pub open spec fn pending_edge(&self, mouse: Vector2) -> Segment {
        Segment { p1: self.points@.last(), p2: mouse }
    }

    /// The edge that a vertex at `mouse` would add is counted as meeting an
    /// edge of one of the polygons, with the new edge as the first of the
    /// two.
    pub open spec fn crosses(&self, polygons: Seq<Polygon>, mouse: Vector2) -> bool {
        self.points@.len() > 0 && exists|p: int, e: int|
            0 <= p < polygons.len() && 0 <= e < polygons[p]@.len() && counted_as_meeting(
                self.pending_edge(mouse),
                #[trigger] polygons[p].edge(e),
            )
    }

    /// Whether the edge from the last vertex to `mouse` would be counted as
    /// meeting one of the polygons. A drawing without vertices meets
    /// nothing.
    pub fn is_intersecting_with_polygons(&self, polygons: &[Polygon], mouse: Vector2) -> (r: bool)
        ensures
            r == self.crosses(polygons@, mouse),
    {
        if self.points.len() == 0 {
            return false;
        }
        let pending: Segment = Segment { p1: self.points[self.points.len() - 1], p2: mouse };
        let mut p: usize = 0;
        while p < polygons.len()
            invariant
                p <= polygons@.len(),
                self.points@.len() > 0,
                pending == self.pending_edge(mouse),
                forall|a: int, e: int|
                    0 <= a < p && 0 <= e < polygons@[a]@.len() ==> !counted_as_meeting(
                        pending,
                        #[trigger] polygons@[a].edge(e),
                    ),
            decreases polygons@.len() - p,
        {
            let segments: Vec<Segment> = polygons[p].segments();
            let mut e: usize = 0;
            while e < segments.len()
                invariant
                    p < polygons@.len(),
                    e <= segments@.len(),
                    segments@ == polygons@[p as int].edges(),
                    self.points@.len() > 0,
                    pending == self.pending_edge(mouse),
                    forall|a: int, b: int|
                        0 <= a < p && 0 <= b < polygons@[a]@.len() ==> !counted_as_meeting(
                            pending,
                            #[trigger] polygons@[a].edge(b),
                        ),
                    forall|b: int|
                        0 <= b < e ==> !counted_as_meeting(
                            pending,
                            #[trigger] polygons@[p as int].edge(b),
                        ),
                decreases segments@.len() - e,
            {
                if do_segments_intersect(&pending, &segments[e]) {
                    assert(segments@[e as int] == polygons@[p as int].edge(e as int));
                    return true;
                }
                e += 1;
            }
            p += 1;
        }
        false
    }

    /// The drawing has more than two vertices and `mouse` is nearer to the
    /// first of them than the snap distance.
    pub open spec fn near_start(&self, mouse: Vector2) -> bool {
        self.points@.len() > 2 && mouse.minus(self.points@[0]).length() < SNAP_DISTANCE
    }

    /// Whether a vertex at `mouse` would close the polygon.
    pub fn is_on_start(&self, mouse: Vector2) -> (r: bool)
        ensures
            r == self.near_start(mouse),
    {
        if self.points.len() > 2 {
            mouse.minus(self.points[0]).length() < SNAP_DISTANCE
        } else {
            false
        }
    }

    /// What adding a vertex at `pos` leads to. Near the start of a drawing
    /// with more than two vertices, the drawing becomes one more polygon
    /// at the end of the list and starts again without vertices. Anywhere
    /// else, `pos` becomes one more vertex of the drawing.
    pub open spec fn point_added(
        &self,
        polygons: Seq<Polygon>,
        pos: Vector2,
        after: &IncompletePolygon,
        polygons_after: Seq<Polygon>,
    ) -> bool {
        if self.near_start(pos) {
            &&& after.points@ == Seq::<Vector2>::empty()
            &&& polygons_after.len() == polygons.len() + 1
            &&& polygons_after.drop_last() == polygons
            &&& polygons_after.last()@ == coordinates(self.points@)
            &&& polygons_after.last().well_formed()
        } else {
            &&& after.points@ == self.points@.push(pos)
            &&& polygons_after == polygons
        }
    }

    /// Adds a vertex at `pos`, or closes the polygon where `pos` is on its
    /// start.
    pub fn add_point(&mut self, pos: Vector2, polygons: &mut Vec<Polygon>)
        ensures
            old(self).point_added(old(polygons)@, pos, final(self), final(polygons)@),
    {
        if !self.is_on_start(pos) {
            self.points.push(pos);
        } else {
            let mut pairs: Vec<(i32, i32)> = Vec::new();
            let mut i: usize = 0;
            while i < self.points.len()
                invariant
                    i <= self.points@.len(),
                    pairs@.len() == i,
                    forall|j: int|
                        0 <= j < i ==> #[trigger] pairs@[j] == (
                            self.points@[j].x,
                            self.points@[j].y,
                        ),
                decreases self.points@.len() - i,
            {
                pairs.push((self.points[i].x, self.points[i].y));
                i += 1;
            }
            assert(pairs@ =~= coordinates(self.points@));
            polygons.push(Polygon::new(pairs));
            assert(polygons@.drop_last() =~= old(polygons)@);
            self.reset();
        }
    }

    /// Forgets all vertices.
    pub fn reset(&mut self)
        ensures
            final(self).points@ == Seq::<Vector2>::empty(),
    {
        self.points = Vec::new();
    }
}

} // verus!
