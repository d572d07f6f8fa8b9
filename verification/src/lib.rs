//! A bounding volume hierarchy over axis-aligned boxes with exact integer
//! (fixed-point) coordinates.
//!
//! The index is built once from a set of bounded objects, queried many times
//! with rays, and can be flattened into a linear array for stackless
//! traversal.  All coordinates are integers so that every geometric
//! computation in the crate is exact: construction is reproducible and the
//! ray-box test admits no rounding error.

pub mod aabb;
pub mod axis;
pub mod builder;
pub mod bvh;
pub mod flat;
pub mod intersect;
pub mod laws;
pub mod ray;
pub mod traverse;
pub mod vector;

use vstd::prelude::*;

verus! {

/// Largest coordinate magnitude the crate works with.
///
/// Keeping every coordinate within `[-MAX_COORD, MAX_COORD]` guarantees that
/// coordinate differences fit in `i64` and that the products formed by the
/// ray-box slab test and the surface-area heuristic fit in their integer
/// types.
pub const MAX_COORD: i64 = 1073741824;

} // verus!
