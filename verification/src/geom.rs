//! Integer points and displacement vectors.
//!
//! Coordinates are bounded integers: the bound keeps every cross product the
//! intersection code computes within `i128`, so all geometric predicates are
//! exact.

use vstd::prelude::*;

verus! {

/// Largest coordinate magnitude a well-formed point or vector may carry
/// (`2^28` scene units).
pub const MAX_COORD: i64 = 268435456;

/// A position on the 2D plane, in whole scene units.
#[derive(Clone, Copy, Debug, PartialEq, Eq, Structural)]
pub struct Point {
    /// Horizontal coordinate.
    pub x: i64,
    /// Vertical coordinate.
    pub y: i64,
}

/// A displacement between two points.
#[derive(Clone, Copy, Debug, PartialEq, Eq, Structural)]
pub struct Vector {
    /// Horizontal component.
    pub x: i64,
    /// Vertical component.
    pub y: i64,
}

impl Point {
    /// Coordinates within the library's working range.
    pub open spec fn wf(self) -> bool {
        -MAX_COORD <= self.x <= MAX_COORD && -MAX_COORD <= self.y <= MAX_COORD
    }

    /// Build a point from its coordinates.
    pub fn new(x: i64, y: i64) -> (r: Point)
        ensures
            r.x == x,
            r.y == y,
    {
        Point { x, y }
    }

    /// The displacement from `other` to `self`.
    pub fn sub(&self, other: &Point) -> (r: Vector)
        requires
            self.wf(),
            other.wf(),
        ensures
            r.x == self.x - other.x,
            r.y == self.y - other.y,
    {
        Vector { x: self.x - other.x, y: self.y - other.y }
    }

    /// The point displaced by a vector.
    pub fn add(&self, v: &Vector) -> (r: Point)
        requires
            self.wf(),
            -MAX_COORD <= self.x + v.x <= MAX_COORD,
            -MAX_COORD <= self.y + v.y <= MAX_COORD,
        ensures
            r.x == self.x + v.x,
            r.y == self.y + v.y,
            r.wf(),
    {
        Point { x: self.x + v.x, y: self.y + v.y }
    }
}

impl Vector {
    /// Components within the library's working range.
    pub open spec fn wf(self) -> bool {
        -MAX_COORD <= self.x <= MAX_COORD && -MAX_COORD <= self.y <= MAX_COORD
    }

    /// Build a vector from its components.
    pub fn new(x: i64, y: i64) -> (r: Vector)
        ensures
            r.x == x,
            r.y == y,
    {
        Vector { x, y }
    }

}

/// Build a point; shorthand used heavily when describing shapes.
pub fn pt(x: i64, y: i64) -> (r: Point)
    ensures
        r.x == x,
        r.y == y,
{
    Point { x, y }
}

/// Build a vector; shorthand companion to [`pt`].
pub fn vec(x: i64, y: i64) -> (r: Vector)
    ensures
        r.x == x,
        r.y == y,
{
    Vector { x, y }
}

/// Values that can be mirrored across the `x = y` axis.
pub trait XYFlip: Sized {
    /// The mirrored value, as a specification.
    spec fn spec_xy_flip(self) -> Self;

    /// Mirror the value across the `x = y` axis.
    fn xy_flip(&self) -> (r: Self)
        ensures
            r == self.spec_xy_flip(),
    ;
}

impl XYFlip for Point {
    open spec fn spec_xy_flip(self) -> Point {
        Point { x: self.y, y: self.x }
    }

    fn xy_flip(&self) -> (r: Point) {
        Point { x: self.y, y: self.x }
    }
}

impl XYFlip for Vector {
    open spec fn spec_xy_flip(self) -> Vector {
        Vector { x: self.y, y: self.x }
    }

    fn xy_flip(&self) -> (r: Vector) {
        Vector { x: self.y, y: self.x }
    }
}

/// Values that can be displaced by a vector.
pub trait Translate: Sized {
    /// Whether the displaced value stays within coordinate range.
    spec fn can_translate(self, dist: Vector) -> bool;

    /// The displaced value, as a specification.
    spec fn spec_translate(self, dist: Vector) -> Self;

    /// Displace the value by `dist`.
    fn translate(&self, dist: &Vector) -> (r: Self)
        requires
            self.can_translate(*dist),
        ensures
            r == self.spec_translate(*dist),
    ;
}

impl Translate for Point {
    open spec fn can_translate(self, dist: Vector) -> bool {
        -MAX_COORD <= self.x + dist.x <= MAX_COORD && -MAX_COORD <= self.y + dist.y
            <= MAX_COORD && self.wf()
    }

    open spec fn spec_translate(self, dist: Vector) -> Point {
        Point { x: (self.x + dist.x) as i64, y: (self.y + dist.y) as i64 }
    }

    fn translate(&self, dist: &Vector) -> (r: Point) {
        Point { x: self.x + dist.x, y: self.y + dist.y }
    }
}

} // verus!
