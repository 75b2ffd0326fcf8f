//! Conversions between coordinate pairs and geometric values.

use crate::entities::segment::Segment;
use crate::utils::vector::Vector2;
use vstd::prelude::*;

verus! {

/// The segment between two coordinate pairs.
pub fn coords_to_segment(a: (i32, i32), b: (i32, i32)) -> (s: Segment)
    ensures
        s == (Segment { p1: Vector2 { x: a.0, y: a.1 }, p2: Vector2 { x: b.0, y: b.1 } }),
{
    Segment { p1: Vector2::new(a.0, a.1), p2: Vector2::new(b.0, b.1) }
}

} // verus!
