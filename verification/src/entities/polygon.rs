//! Closed polygons and their axis-aligned bounding boxes.

use crate::entities::segment::Segment;
use crate::utils::conversion::coords_to_segment;
use crate::utils::fixed::{sat_sub, saturate};
use crate::utils::vector::Vector2;
use vstd::prelude::*;

verus! {

/// The smallest axis-aligned rectangle around a set of points.
#[derive(Clone, Copy, Debug, PartialEq, Eq, Structural)]
pub struct BoundingBox {
    pub min_hor: i32,
    pub max_hor: i32,
    pub min_ver: i32,
    pub max_ver: i32,
}

impl BoundingBox {
    /// Every point lies inside the box.
    pub open spec fn contains_all(self, points: Seq<(i32, i32)>) -> bool {
        forall|i: int|
            0 <= i < points.len() ==> {
                &&& self.min_hor <= (#[trigger] points[i]).0 <= self.max_hor
                &&& self.min_ver <= points[i].1 <= self.max_ver
            }
    }

    /// Each side of the box touches a point.
    pub open spec fn touches(self, points: Seq<(i32, i32)>) -> bool {
        &&& exists|i: int| 0 <= i < points.len() && (#[trigger] points[i]).0 == self.min_hor
        &&& exists|i: int| 0 <= i < points.len() && (#[trigger] points[i]).0 == self.max_hor
        &&& exists|i: int| 0 <= i < points.len() && (#[trigger] points[i]).1 == self.min_ver
        &&& exists|i: int| 0 <= i < points.len() && (#[trigger] points[i]).1 == self.max_ver
    }

    /// The box is the bounding box of `points`.
    pub open spec fn bounds(self, points: Seq<(i32, i32)>) -> bool {
        self.contains_all(points) && self.touches(points)
    }

    /// The bounding box of a list of points that is not empty.
    pub fn new(points: &[(i32, i32)]) -> (b: Self)
        requires
            points@.len() > 0,
        ensures
            b.bounds(points@),
    {
        let mut b: BoundingBox = BoundingBox {
            min_hor: points[0].0,
            max_hor: points[0].0,
            min_ver: points[0].1,
            max_ver: points[0].1,
        };
        let mut i: usize = 1;
        assert(points@.take(1)[0] == points@[0]);
        while i < points.len()
            invariant
                1 <= i <= points@.len(),
                b.bounds(points@.take(i as int)),
            decreases points@.len() - i,
        {
            let point: (i32, i32) = points[i];
            let ghost before: BoundingBox = b;
            let ghost seen: Seq<(i32, i32)> = points@.take(i as int);
            let ghost next: Seq<(i32, i32)> = points@.take(i + 1);
            b.min_hor = if b.min_hor < point.0 { b.min_hor } else { point.0 };
            b.max_hor = if b.max_hor > point.0 { b.max_hor } else { point.0 };
            b.min_ver = if b.min_ver < point.1 { b.min_ver } else { point.1 };
            b.max_ver = if b.max_ver > point.1 { b.max_ver } else { point.1 };
            proof {
                assert(next[i as int] == point);
                assert forall|j: int| 0 <= j < i implies #[trigger] next[j] == seen[j] by {}
                assert(b.contains_all(next));
                let w0: int = choose|j: int| 0 <= j < seen.len() && (#[trigger] seen[j]).0 == before.min_hor;
                let w1: int = choose|j: int| 0 <= j < seen.len() && (#[trigger] seen[j]).0 == before.max_hor;
                let w2: int = choose|j: int| 0 <= j < seen.len() && (#[trigger] seen[j]).1 == before.min_ver;
                let w3: int = choose|j: int| 0 <= j < seen.len() && (#[trigger] seen[j]).1 == before.max_ver;
                let k0: int = if before.min_hor < point.0 { w0 } else { i as int };
                let k1: int = if before.max_hor > point.0 { w1 } else { i as int };
                let k2: int = if before.min_ver < point.1 { w2 } else { i as int };
                let k3: int = if before.max_ver > point.1 { w3 } else { i as int };
                assert(next[k0].0 == b.min_hor);
                assert(next[k1].0 == b.max_hor);
                assert(next[k2].1 == b.min_ver);
                assert(next[k3].1 == b.max_ver);
            }
            i += 1;
        }
        assert(points@.take(i as int) =~= points@);
        b
    }
}

/// The index that follows `i` on a ring of `n` vertices.
pub open spec fn successor(i: int, n: int) -> int {
    if i == n - 1 {
        0
    } else {
        i + 1
    }
}

/// The edge of a ring that starts at vertex `i`.
pub open spec fn ring_edge(ring: Seq<(i32, i32)>, i: int) -> Segment {
    let a: (i32, i32) = ring[i];
    let b: (i32, i32) = ring[successor(i, ring.len() as int)];
    Segment { p1: Vector2 { x: a.0, y: a.1 }, p2: Vector2 { x: b.0, y: b.1 } }
}

/// All edges of a ring, in the order of their first vertex.
pub open spec fn ring_edges(ring: Seq<(i32, i32)>) -> Seq<Segment> {
    Seq::new(ring.len(), |i: int| ring_edge(ring, i))
}

/// A closed ring of vertices; the last one connects back to the first.
#[derive(Clone, Debug)]
pub struct Polygon {
    points: Vec<(i32, i32)>,
    bounding_box: BoundingBox,
}

impl View for Polygon {
    type V = Seq<(i32, i32)>;

    /// The vertices, in order.
    closed spec fn view(&self) -> Seq<(i32, i32)> {
        self.points@
    }
}

impl Polygon {
    /// The box that was computed when the polygon was made.
    pub closed spec fn frame(&self) -> BoundingBox {
        self.bounding_box
    }

    /// The ring has at least three vertices and the stored box is their
    /// bounding box.
    pub open spec fn well_formed(&self) -> bool {
        self@.len() >= 3 && self.frame().bounds(self@)
    }

    /// The bounding box of the vertices, as computed when the polygon was
    /// made.
    pub fn bounding_box(&self) -> (b: BoundingBox)
        ensures
            b == self.frame(),
    {
        self.bounding_box
    }

    /// The edge that starts at vertex `i`.
    pub open spec fn edge(&self, i: int) -> Segment {
        ring_edge(self@, i)
    }

    /// All edges, in the order of their first vertex.
    pub open spec fn edges(&self) -> Seq<Segment> {
        ring_edges(self@)
    }

    /// The polygon with the given vertices.
    pub fn new(points: Vec<(i32, i32)>) -> (p: Polygon)
        requires
            points@.len() >= 3,
        ensures
            p@ == points@,
            p.well_formed(),
    {
        Polygon { bounding_box: BoundingBox::new(points.as_slice()), points }
    }

    /// The vertices of the floor of a screen: a bar thirty units high that
    /// keeps twenty units from the left, right and lower edge.
    pub open spec fn floor_vertices(screen_width: i32, screen_height: i32) -> Seq<(i32, i32)> {
        let left: i32 = 20_000;
        let right: i32 = saturate(screen_width - 20_000) as i32;
        let top: i32 = saturate(screen_height - 50_000) as i32;
        let bottom: i32 = saturate(screen_height - 20_000) as i32;
        seq![(left, top), (right, top), (right, bottom), (left, bottom)]
    }

    /// The floor of a screen of the given size.
    pub fn generate_floor(screen_width: i32, screen_height: i32) -> (p: Polygon)
        ensures
            p@ == Self::floor_vertices(screen_width, screen_height),
            p.well_formed(),
    {
        let right: i32 = sat_sub(screen_width, 20_000);
        let top: i32 = sat_sub(screen_height, 50_000);
        let bottom: i32 = sat_sub(screen_height, 20_000);
        let points: Vec<(i32, i32)> = vec![
            (20_000, top),
            (right, top),
            (right, bottom),
            (20_000, bottom),
        ];
        assert(points@ =~= Self::floor_vertices(screen_width, screen_height));
        Polygon::new(points)
    }

    /// The edges of the ring: each vertex paired with the one that follows
    /// it, the last with the first.
    pub fn segments(&self) -> (r: Vec<Segment>)
        ensures
            r@ == self.edges(),
    {
        let n: usize = self.points.len();
        let mut r: Vec<Segment> = Vec::new();
        let mut i: usize = 0;
        while i < n
            invariant
                n == self.points@.len(),
                i <= n,
                r@.len() == i,
                forall|j: int| 0 <= j < i ==> #[trigger] r@[j] == self.edge(j),
            decreases n - i,
        {
            let p1: (i32, i32) = self.points[i];
            let p2: (i32, i32) = self.points[if i == n - 1 { 0 } else { i + 1 }];
            r.push(coords_to_segment(p1, p2));
            i += 1;
        }
        assert(r@ =~= self.edges());
        r
    }

    /// The number of vertices.
    pub fn len(&self) -> (n: usize)
        ensures
            n == self@.len(),
    {
        self.points.len()
    }
}

} // verus!
