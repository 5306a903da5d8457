//! Axis-aligned rectangles on an integer grid.

use vstd::prelude::*;

verus! {

/// A grid point.
#[derive(Default, Debug, Clone, Copy, PartialEq, Eq, Structural)]
pub struct Point {
    pub x: i32,
    pub y: i32,
}

/// An axis-aligned rectangle, given by its two extreme corners.
///
/// Nothing requires `min` to lie below `max`: every operation is total, and
/// follows its formula on such a rectangle as on any other.
#[derive(Default, Debug, Clone, Copy, PartialEq, Eq, Structural)]
pub struct Bounds {
    pub min: Point,
    pub max: Point,
}

/// The smaller of two coordinates.
pub open spec fn lesser(a: i32, b: i32) -> i32 {
    if a <= b {
        a
    } else {
        b
    }
}

/// The larger of two coordinates.
pub open spec fn greater(a: i32, b: i32) -> i32 {
    if a >= b {
        a
    } else {
        b
    }
}

fn lesser_of(a: i32, b: i32) -> (r: i32)
    ensures
        r == lesser(a, b),
{
    if a <= b {
        a
    } else {
        b
    }
}

fn greater_of(a: i32, b: i32) -> (r: i32)
    ensures
        r == greater(a, b),
{
    if a >= b {
        a
    } else {
        b
    }
}

impl Bounds {
    /// The smallest rectangle that contains both operands.
    pub open spec fn spec_merge(self, other: Bounds) -> Bounds {
        Bounds {
            min: Point { x: lesser(self.min.x, other.min.x), y: lesser(self.min.y, other.min.y) },
            max: Point { x: greater(self.max.x, other.max.x), y: greater(self.max.y, other.max.y) },
        }
    }

    /// Two rectangles intersect unless they are separated along x or along y.
    /// Rectangles that only share an edge or a corner do not intersect.
    pub open spec fn spec_intersects(self, other: Bounds) -> bool {
        !(self.min.x >= other.max.x || self.max.x <= other.min.x || self.min.y >= other.max.y
            || self.max.y <= other.min.y)
    }

    /// Width plus height.
    pub open spec fn spec_half_perimeter(self) -> int {
        (self.max.x - self.min.x) + (self.max.y - self.min.y)
    }

    /// `self` reaches at least as far as `other` in all four directions.
    pub open spec fn covers(self, other: Bounds) -> bool {
        &&& self.min.x <= other.min.x
        &&& self.min.y <= other.min.y
        &&& other.max.x <= self.max.x
        &&& other.max.y <= self.max.y
    }

    #[verifier::when_used_as_spec(spec_merge)]
    pub fn merge(self, other: Bounds) -> (merged: Bounds)
        ensures
            merged == self.spec_merge(other),
    {
        Bounds {
            min: Point {
                x: lesser_of(self.min.x, other.min.x),
                y: lesser_of(self.min.y, other.min.y),
            },
            max: Point {
                x: greater_of(self.max.x, other.max.x),
                y: greater_of(self.max.y, other.max.y),
            },
        }
    }

    #[verifier::when_used_as_spec(spec_intersects)]
    pub fn intersects(self, other: Bounds) -> (hit: bool)
        ensures
            hit == self.spec_intersects(other),
    {
        !(self.min.x >= other.max.x || self.max.x <= other.min.x || self.min.y >= other.max.y
            || self.max.y <= other.min.y)
    }

    pub fn half_perimeter(self) -> (cost: i64)
        ensures
            cost == self.spec_half_perimeter(),
    {
        let width: i64 = self.max.x as i64 - self.min.x as i64;
        let height: i64 = self.max.y as i64 - self.min.y as i64;
        width + height
    }
}

} // verus!
