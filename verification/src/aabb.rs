//! Axis-aligned bounding boxes.

use vstd::prelude::*;
use crate::axis::Axis;
use crate::vector::{Point3, Vector3};
use crate::MAX_COORD;

verus! {

/// An axis-aligned box, the product of one closed interval per axis.
///
/// A box with `min <= max` on every axis contains exactly the points between
/// its corners.  The distinguished empty box returned by [`AABB::empty`] has
/// `min > max` on every axis, contains nothing, and is the identity element
/// of [`AABB::join`].
#[derive(Clone, Copy, Debug, PartialEq, Eq, Structural)]
pub struct AABB {
    /// Minimum coordinates.
    pub min: Point3,

    /// Maximum coordinates.
    pub max: Point3,
}

/// A trait implemented by things which can be bounded by an [`AABB`].
pub trait Bounded {
    /// The geometric bounds of this object, as a mathematical value.
    spec fn bound(&self) -> AABB;

    /// Returns the geometric bounds of this object in the form of an [`AABB`].
    fn aabb(&self) -> (r: AABB)
        ensures
            r == self.bound(),
    ;
}

/// The empty box: the identity element of [`AABB::join`], containing no
/// point.
pub open spec fn empty_box() -> AABB {
    AABB {
        min: Point3 { x: MAX_COORD, y: MAX_COORD, z: MAX_COORD },
        max: Point3 { x: (-MAX_COORD) as i64, y: (-MAX_COORD) as i64, z: (-MAX_COORD) as i64 },
    }
}

/// A product of two coordinate extents stays well within `i128`.
pub proof fn lemma_extent_product_bounded(a: int, b: int)
    requires
        -2 * MAX_COORD <= a <= 2 * MAX_COORD,
        -2 * MAX_COORD <= b <= 2 * MAX_COORD,
    ensures
        -4 * MAX_COORD * MAX_COORD <= a * b <= 4 * MAX_COORD * MAX_COORD,
{
    assert(-4 * MAX_COORD * MAX_COORD <= a * b <= 4 * MAX_COORD * MAX_COORD)
        by (nonlinear_arith)
        requires
            -2 * MAX_COORD <= a <= 2 * MAX_COORD,
            -2 * MAX_COORD <= b <= 2 * MAX_COORD,
    ;
}

/// A product of three coordinate extents stays well within `i128`.
pub proof fn lemma_extent_triple_product_bounded(a: int, b: int, c: int)
    requires
        -4 * MAX_COORD * MAX_COORD <= a * b <= 4 * MAX_COORD * MAX_COORD,
        -2 * MAX_COORD <= c <= 2 * MAX_COORD,
    ensures
        -8 * MAX_COORD * MAX_COORD * MAX_COORD <= (a * b) * c
            <= 8 * MAX_COORD * MAX_COORD * MAX_COORD,
{
    assert(-8 * MAX_COORD * MAX_COORD * MAX_COORD <= (a * b) * c
        <= 8 * MAX_COORD * MAX_COORD * MAX_COORD)
        by (nonlinear_arith)
        requires
            -4 * MAX_COORD * MAX_COORD <= a * b <= 4 * MAX_COORD * MAX_COORD,
            -2 * MAX_COORD <= c <= 2 * MAX_COORD,
    ;
}

impl AABB {
    /// The box is non-empty: `min <= max` on every axis.
    pub open spec fn is_valid(self) -> bool {
        &&& self.min.x <= self.max.x
        &&& self.min.y <= self.max.y
        &&& self.min.z <= self.max.z
    }

    /// `p` lies inside the box (mathematical form of [`AABB::contains`]).
    pub open spec fn contains_spec(self, p: Point3) -> bool {
        &&& self.min.x <= p.x <= self.max.x
        &&& self.min.y <= p.y <= self.max.y
        &&& self.min.z <= p.z <= self.max.z
    }

    /// Corner coordinates lie within the range the crate works with.
    pub open spec fn in_range(self) -> bool {
        self.min.in_range() && self.max.in_range()
    }

    /// `min` and `max` of this box along `axis`, as mathematical integers.
    pub open spec fn min_axis(self, axis: Axis) -> int {
        self.min.axis_spec(axis)
    }

    /// `max` of this box along `axis`, as a mathematical integer.
    pub open spec fn max_axis(self, axis: Axis) -> int {
        self.max.axis_spec(axis)
    }

    /// The smallest box containing `self` and `other` (mathematical form of
    /// [`AABB::join`]).
    pub open spec fn join_spec(self, other: AABB) -> AABB {
        AABB {
            min: Point3 {
                x: if self.min.x <= other.min.x { self.min.x } else { other.min.x },
                y: if self.min.y <= other.min.y { self.min.y } else { other.min.y },
                z: if self.min.z <= other.min.z { self.min.z } else { other.min.z },
            },
            max: Point3 {
                x: if self.max.x >= other.max.x { self.max.x } else { other.max.x },
                y: if self.max.y >= other.max.y { self.max.y } else { other.max.y },
                z: if self.max.z >= other.max.z { self.max.z } else { other.max.z },
            },
        }
    }

    /// `self` covers no more space than `other`: every point of `self` is a
    /// point of `other`.
    pub open spec fn inside(self, other: AABB) -> bool {
        &&& other.min.x <= self.min.x && self.max.x <= other.max.x
        &&& other.min.y <= self.min.y && self.max.y <= other.max.y
        &&& other.min.z <= self.min.z && self.max.z <= other.max.z
    }

    /// Twice the centroid coordinate of this box along `axis`.
    ///
    /// Working with the doubled value keeps the centroid exact without
    /// leaving the integers; comparisons and bucket assignments made on the
    /// doubled value agree with those made on the true centroid.
    pub open spec fn centroid2_spec(self, axis: Axis) -> int {
        self.min_axis(axis) + self.max_axis(axis)
    }

    /// Total surface area of the box (mathematical form of
    /// [`AABB::surface_area`]).
    pub open spec fn surface_area_spec(self) -> int {
        let dx = self.max.x - self.min.x;
        let dy = self.max.y - self.min.y;
        let dz = self.max.z - self.min.z;
        2 * (dx * dy + dx * dz + dy * dz)
    }

    /// Volume of the box (mathematical form of [`AABB::volume`]).
    pub open spec fn volume_spec(self) -> int {
        (self.max.x - self.min.x) * (self.max.y - self.min.y) * (self.max.z - self.min.z)
    }

    /// The axis along which the box extends the most, preferring `X`, then
    /// `Y`, then `Z` on ties (mathematical form of [`AABB::largest_axis`]).
    pub open spec fn largest_axis_spec(self) -> Axis {
        let dx = self.max.x - self.min.x;
        let dy = self.max.y - self.min.y;
        let dz = self.max.z - self.min.z;
        if dx >= dy && dx >= dz {
            Axis::X
        } else if dy >= dz {
            Axis::Y
        } else {
            Axis::Z
        }
    }

    /// Creates a new [`AABB`] with the given bounds.
    pub fn with_bounds(min: Point3, max: Point3) -> (r: AABB)
        ensures
            r == (AABB { min, max }),
    {
        AABB { min, max }
    }

    /// Creates a new empty [`AABB`]: it contains no point and is the
    /// identity element of [`AABB::join`].
    pub fn empty() -> (r: AABB)
        ensures
            r == empty_box(),
            r.min.x == MAX_COORD && r.min.y == MAX_COORD && r.min.z == MAX_COORD,
            r.max.x == -MAX_COORD && r.max.y == -MAX_COORD && r.max.z == -MAX_COORD,
            forall|p: Point3| !r.contains_spec(p),
            forall|b: AABB| b.in_range() ==> r.join_spec(b) == b,
            r.in_range(),
    {
        let r = AABB {
            min: Point3 { x: MAX_COORD, y: MAX_COORD, z: MAX_COORD },
            max: Point3 { x: -MAX_COORD, y: -MAX_COORD, z: -MAX_COORD },
        };
        proof {
            assert forall|b: AABB| b.in_range() implies r.join_spec(b) == b by {
                assert(r.join_spec(b) =~= b);
            }
        }
        r
    }

    /// Returns true if the [`Point3`] is inside the [`AABB`].
    pub fn contains(&self, p: &Point3) -> (r: bool)
        ensures
            r == self.contains_spec(*p),
    {
        p.x >= self.min.x && p.x <= self.max.x && p.y >= self.min.y && p.y <= self.max.y
            && p.z >= self.min.z && p.z <= self.max.z
    }

    /// Returns true if the [`Point3`] is inside the [`AABB`] widened by
    /// `epsilon` on every side.
    pub fn approx_contains_eps(&self, p: &Point3, epsilon: i64) -> (r: bool)
        requires
            self.in_range(),
            p.in_range(),
            -MAX_COORD <= epsilon <= MAX_COORD,
        ensures
            r == {
                &&& p.x - self.min.x > -epsilon && p.x - self.max.x < epsilon
                &&& p.y - self.min.y > -epsilon && p.y - self.max.y < epsilon
                &&& p.z - self.min.z > -epsilon && p.z - self.max.z < epsilon
            },
    {
        (p.x - self.min.x) > -epsilon && (p.x - self.max.x) < epsilon
            && (p.y - self.min.y) > -epsilon && (p.y - self.max.y) < epsilon
            && (p.z - self.min.z) > -epsilon && (p.z - self.max.z) < epsilon
    }

    /// Returns a new minimal [`AABB`] which contains both this [`AABB`] and
    /// `other`.  The result is the convex hull of the two boxes.
    pub fn join(&self, other: &AABB) -> (r: AABB)
        ensures
            r == self.join_spec(*other),
    {
        let min = Point3 {
            x: if self.min.x <= other.min.x { self.min.x } else { other.min.x },
            y: if self.min.y <= other.min.y { self.min.y } else { other.min.y },
            z: if self.min.z <= other.min.z { self.min.z } else { other.min.z },
        };
        let max = Point3 {
            x: if self.max.x >= other.max.x { self.max.x } else { other.max.x },
            y: if self.max.y >= other.max.y { self.max.y } else { other.max.y },
            z: if self.max.z >= other.max.z { self.max.z } else { other.max.z },
        };
        AABB { min, max }
    }

    /// Returns a new minimal [`AABB`] which contains both this [`AABB`] and
    /// the [`Point3`] `other`.
    pub fn grow(&self, other: &Point3) -> (r: AABB)
        ensures
            r == self.join_spec(AABB { min: *other, max: *other }),
    {
        self.join(&AABB { min: *other, max: *other })
    }

    /// Returns a new minimal [`AABB`] which contains both this [`AABB`] and
    /// the [`Bounded`] `other`.
    pub fn join_bounded<T: Bounded>(&self, other: &T) -> (r: AABB)
        ensures
            r == self.join_spec(other.bound()),
    {
        self.join(&other.aabb())
    }

    /// Returns the size of this [`AABB`] in all three dimensions.
    pub fn size(&self) -> (r: Vector3)
        requires
            self.in_range(),
        ensures
            r.x == self.max.x - self.min.x,
            r.y == self.max.y - self.min.y,
            r.z == self.max.z - self.min.z,
    {
        Vector3 { x: self.max.x - self.min.x, y: self.max.y - self.min.y, z: self.max.z - self.min.z }
    }

    /// Returns the center [`Point3`] of the [`AABB`], rounding each
    /// coordinate towards the minimum corner.
    pub fn center(&self) -> (r: Point3)
        requires
            self.in_range(),
            self.is_valid(),
        ensures
            r.x == self.min.x + (self.max.x - self.min.x) / 2,
            r.y == self.min.y + (self.max.y - self.min.y) / 2,
            r.z == self.min.z + (self.max.z - self.min.z) / 2,
    {
        Point3 {
            x: self.min.x + (self.max.x - self.min.x) / 2,
            y: self.min.y + (self.max.y - self.min.y) / 2,
            z: self.min.z + (self.max.z - self.min.z) / 2,
        }
    }

    /// Returns the total surface area of this [`AABB`].
    pub fn surface_area(&self) -> (r: i128)
        requires
            self.in_range(),
        ensures
            r == self.surface_area_spec(),
    {
        let dx = (self.max.x - self.min.x) as i128;
        let dy = (self.max.y - self.min.y) as i128;
        let dz = (self.max.z - self.min.z) as i128;
        proof {
            lemma_extent_product_bounded(dx as int, dy as int);
            lemma_extent_product_bounded(dx as int, dz as int);
            lemma_extent_product_bounded(dy as int, dz as int);
        }
        2 * (dx * dy + dx * dz + dy * dz)
    }

    /// Returns the volume of this [`AABB`].
    pub fn volume(&self) -> (r: i128)
        requires
            self.in_range(),
        ensures
            r == self.volume_spec(),
    {
        let dx = (self.max.x - self.min.x) as i128;
        let dy = (self.max.y - self.min.y) as i128;
        let dz = (self.max.z - self.min.z) as i128;
        proof {
            lemma_extent_product_bounded(dx as int, dy as int);
            lemma_extent_triple_product_bounded(dx as int, dy as int, dz as int);
        }
        dx * dy * dz
    }

    /// Returns the axis along which the [`AABB`] is stretched the most,
    /// preferring `X`, then `Y`, then `Z` when extents tie.
    pub fn largest_axis(&self) -> (r: Axis)
        requires
            self.in_range(),
        ensures
            r == self.largest_axis_spec(),
    {
        let dx = self.max.x - self.min.x;
        let dy = self.max.y - self.min.y;
        let dz = self.max.z - self.min.z;
        if dx >= dy && dx >= dz {
            Axis::X
        } else if dy >= dz {
            Axis::Y
        } else {
            Axis::Z
        }
    }
}

/// A default [`AABB`] is the empty box.
impl Default for AABB {
    fn default() -> (r: AABB)
        ensures
            r == empty_box(),
            forall|p: Point3| !r.contains_spec(p),
    {
        AABB::empty()
    }
}

/// An [`AABB`] is bounded by itself.
impl Bounded for AABB {
    open spec fn bound(&self) -> AABB {
        *self
    }

    fn aabb(&self) -> (r: AABB)
        ensures
            r == self.bound(),
    {
        *self
    }
}

/// A [`Point3`] is bounded by the degenerate box that is exactly the point.
impl Bounded for Point3 {
    open spec fn bound(&self) -> AABB {
        AABB { min: *self, max: *self }
    }

    fn aabb(&self) -> (r: AABB)
        ensures
            r == self.bound(),
    {
        AABB { min: *self, max: *self }
    }
}

} // verus!
