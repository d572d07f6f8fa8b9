//! Integer points and vectors in three-dimensional space.

use vstd::prelude::*;
use crate::axis::Axis;
use crate::MAX_COORD;

verus! {

/// A position in space with exact integer (fixed-point) coordinates.
#[derive(Clone, Copy, Debug, PartialEq, Eq, Structural)]
pub struct Point3 {
    pub x: i64,
    pub y: i64,
    pub z: i64,
}

/// A displacement in space with exact integer (fixed-point) coordinates.
#[derive(Clone, Copy, Debug, PartialEq, Eq, Structural)]
pub struct Vector3 {
    pub x: i64,
    pub y: i64,
    pub z: i64,
}

impl Point3 {
    /// The coordinate of this point along `axis`.
    pub open spec fn axis_spec(self, axis: Axis) -> int {
        match axis {
            Axis::X => self.x as int,
            Axis::Y => self.y as int,
            Axis::Z => self.z as int,
        }
    }

    /// Every coordinate lies within the range the crate works with.
    pub open spec fn in_range(self) -> bool {
        &&& -MAX_COORD <= self.x <= MAX_COORD
        &&& -MAX_COORD <= self.y <= MAX_COORD
        &&& -MAX_COORD <= self.z <= MAX_COORD
    }

    pub fn new(x: i64, y: i64, z: i64) -> (r: Point3)
        ensures
            r == (Point3 { x, y, z }),
    {
        Point3 { x, y, z }
    }

    /// The coordinate of this point along `axis`.
    pub fn axis(&self, axis: Axis) -> (r: i64)
        ensures
            r as int == self.axis_spec(axis),
    {
        match axis {
            Axis::X => self.x,
            Axis::Y => self.y,
            Axis::Z => self.z,
        }
    }
}

impl Vector3 {
    /// The component of this vector along `axis`.
    pub open spec fn axis_spec(self, axis: Axis) -> int {
        match axis {
            Axis::X => self.x as int,
            Axis::Y => self.y as int,
            Axis::Z => self.z as int,
        }
    }

    /// Every component lies within the range the crate works with.
    pub open spec fn in_range(self) -> bool {
        &&& -MAX_COORD <= self.x <= MAX_COORD
        &&& -MAX_COORD <= self.y <= MAX_COORD
        &&& -MAX_COORD <= self.z <= MAX_COORD
    }

    pub fn new(x: i64, y: i64, z: i64) -> (r: Vector3)
        ensures
            r == (Vector3 { x, y, z }),
    {
        Vector3 { x, y, z }
    }

    /// The component of this vector along `axis`.
    pub fn axis(&self, axis: Axis) -> (r: i64)
        ensures
            r as int == self.axis_spec(axis),
    {
        match axis {
            Axis::X => self.x,
            Axis::Y => self.y,
            Axis::Z => self.z,
        }
    }
}

} // verus!
