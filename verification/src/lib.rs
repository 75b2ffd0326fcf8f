//! A small soft-body physics core on a fixed-point grid.
//!
//! A soft body is a lattice of particles held together by damped springs. It
//! falls under gravity, collides with polygons, and keeps its particles from
//! collapsing into each other.
//!
//! Every coordinate, speed, force and length is an `i32` that counts
//! thousandths of a unit, and every operation that could leave the range of
//! `i32` saturates at its ends. Products and quotients are rounded toward
//! zero, lengths are rounded down. Geometric predicates (does a segment cover
//! a point, does a ray cross an edge, do two segments meet) are decided
//! exactly, in wider integers.
//!
//! - [`utils`]: scalars, vectors, the segment crossing test and the sampler
//!   of the integrator.
//! - [`entities`]: segments, polygons, particles, springs and bodies, with
//!   the statements that hold of them.
//! - [`ui`]: what a click in the scene does to it.

pub mod entities;
pub mod ui;
pub mod utils;
