//! Points with unsigned 32 bit pixel coordinates.

use vstd::prelude::*;

verus! {

/// A 2D point with `u32` coordinates.
#[derive(Clone, Copy, Debug, PartialEq, Eq, Structural)]
pub struct Point {
    pub x: u32,
    pub y: u32,
}

/// Points over pixel coordinates.
pub type PointU32 = Point;

/// Squared Euclidean distance between two points.
pub open spec fn sq_dist(a: Point, b: Point) -> int {
    let dx = a.x - b.x;
    let dy = a.y - b.y;
    dx * dx + dy * dy
}

pub open spec fn min_u32(a: u32, b: u32) -> u32 {
    if a <= b { a } else { b }
}

pub open spec fn max_u32(a: u32, b: u32) -> u32 {
    if a >= b { a } else { b }
}

impl Point {
    pub fn new(x: u32, y: u32) -> (r: Point)
        ensures
            r.x == x,
            r.y == y,
    {
        Point { x, y }
    }

    /// The component-wise minimum of the two points.
    pub fn lowest(&self, other: &Point) -> (r: Point)
        ensures
            r.x == min_u32(self.x, other.x),
            r.y == min_u32(self.y, other.y),
    {
        Point {
            x: if self.x <= other.x { self.x } else { other.x },
            y: if self.y <= other.y { self.y } else { other.y },
        }
    }

    /// The component-wise maximum of the two points.
    pub fn highest(&self, other: &Point) -> (r: Point)
        ensures
            r.x == max_u32(self.x, other.x),
            r.y == max_u32(self.y, other.y),
    {
        Point {
            x: if self.x >= other.x { self.x } else { other.x },
            y: if self.y >= other.y { self.y } else { other.y },
        }
    }

    /// The squared Euclidean distance to `other`; it always fits in a `u128`.
    pub fn squared_distance(&self, other: &Point) -> (r: u128)
        ensures
            r == sq_dist(*self, *other),
    {
        let dx: u128 = if self.x >= other.x {
            (self.x - other.x) as u128
        } else {
            (other.x - self.x) as u128
        };
        let dy: u128 = if self.y >= other.y {
            (self.y - other.y) as u128
        } else {
            (other.y - self.y) as u128
        };
        assert(dx * dx <= 0xffff_ffff * 0xffff_ffff) by (nonlinear_arith)
            requires dx <= 0xffff_ffff;
        assert(dy * dy <= 0xffff_ffff * 0xffff_ffff) by (nonlinear_arith)
            requires dy <= 0xffff_ffff;
        assert(dx * dx == (self.x - other.x) * (self.x - other.x)) by (nonlinear_arith)
            requires dx == self.x - other.x || dx == other.x - self.x;
        assert(dy * dy == (self.y - other.y) * (self.y - other.y)) by (nonlinear_arith)
            requires dy == self.y - other.y || dy == other.y - self.y;
        dx * dx + dy * dy
    }
}

} // verus!
