//! Rays: an origin and a direction.

use vstd::prelude::*;
use crate::vector::{Point3, Vector3};

verus! {

/// A ray starting at `origin` and extending in `direction`.
///
/// The ray is the half-line `origin + t * direction` for the real parameters
/// `t > 0`.  The direction need not be normalised; a zero direction denotes
/// the degenerate ray that never leaves its origin.
#[derive(Clone, Copy, Debug, PartialEq, Eq, Structural)]
pub struct Ray {
    /// The point the ray starts from.
    pub origin: Point3,
    /// The direction the ray extends in.
    pub direction: Vector3,
}

impl Ray {
    /// Origin and direction lie within the coordinate range the crate works
    /// with.
    pub open spec fn in_range(self) -> bool {
        self.origin.in_range() && self.direction.in_range()
    }

    pub fn new(origin: Point3, direction: Vector3) -> (r: Ray)
        ensures
            r == (Ray { origin, direction }),
    {
        Ray { origin, direction }
    }
}

} // verus!
