//! Plain integer geometry: points, layout bounds and layout constraints.

use vstd::prelude::*;

verus! {

/// A position in window coordinates.
#[derive(Clone, Copy, Debug, PartialEq, Eq, Structural)]
pub struct Point {
    pub x: i32,
    pub y: i32,
}

impl Point {
    pub fn new(x: i32, y: i32) -> (p: Point)
        ensures
            p.x == x,
            p.y == y,
    {
        Point { x, y }
    }
}

/// The layout rectangle of a widget, in window coordinates.
#[derive(Clone, Copy, Debug, PartialEq, Eq, Structural)]
pub struct Bounds {
    pub x: i32,
    pub y: i32,
    pub width: i32,
    pub height: i32,
}

impl Bounds {
    /// The hit-test region of the rectangle: a point is inside when it lies
    /// within the half-open extent on both axes. A rectangle with a
    /// non-positive extent contains no point.
    pub open spec fn spec_contains(self, p: Point) -> bool {
        &&& self.x <= p.x < self.x + self.width
        &&& self.y <= p.y < self.y + self.height
    }

    pub fn new(x: i32, y: i32, width: i32, height: i32) -> (b: Bounds)
        ensures
            b == (Bounds { x, y, width, height }),
    {
        Bounds { x, y, width, height }
    }

    pub fn contains(&self, p: Point) -> (r: bool)
        ensures
            r == self.spec_contains(p),
    {
        let x = self.x as i64;
        let y = self.y as i64;
        let px = p.x as i64;
        let py = p.y as i64;
        x <= px && px < x + self.width as i64 && y <= py && py < y + self.height as i64
    }

    pub fn set_width(&mut self, width: i32)
        ensures
            *final(self) == (Bounds { width, ..*old(self) }),
    {
        self.width = width;
    }

    pub fn set_height(&mut self, height: i32)
        ensures
            *final(self) == (Bounds { height, ..*old(self) }),
    {
        self.height = height;
    }
}

/// The layout constraint of a widget; only the extent the router touches is
/// modelled.
#[derive(Clone, Copy, Debug, PartialEq, Eq, Structural)]
pub struct Constraint {
    pub width: i32,
    pub height: i32,
}

impl Constraint {
    pub fn new(width: i32, height: i32) -> (c: Constraint)
        ensures
            c == (Constraint { width, height }),
    {
        Constraint { width, height }
    }

    pub fn set_width(&mut self, width: i32)
        ensures
            *final(self) == (Constraint { width, ..*old(self) }),
    {
        self.width = width;
    }

    pub fn set_height(&mut self, height: i32)
        ensures
            *final(self) == (Constraint { height, ..*old(self) }),
    {
        self.height = height;
    }
}

} // verus!
