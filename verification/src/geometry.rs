//! Plain geometric values of the logical coordinate space: points, sizes,
//! rectangles and display modes.

use vstd::prelude::*;

verus! {

/// A location in the shared logical coordinate space.
#[derive(Clone, Copy, Debug, PartialEq, Eq, Structural)]
pub struct Point {
    pub x: i32,
    pub y: i32,
}

/// An extent in logical pixels.
#[derive(Clone, Copy, Debug, PartialEq, Eq, Structural)]
pub struct Size {
    pub w: i32,
    pub h: i32,
}

/// An axis-aligned rectangle: a location and an extent.
#[derive(Clone, Copy, Debug, PartialEq, Eq, Structural)]
pub struct Rectangle {
    pub loc: Point,
    pub size: Size,
}

/// A display timing: a pixel size and a refresh rate in millihertz.
#[derive(Clone, Copy, Debug, PartialEq, Eq, Structural)]
pub struct Mode {
    pub size: Size,
    /// Refresh rate in millihertz (60 Hz is 60_000).
    pub refresh: i32,
}

impl Rectangle {
    /// Whether `p` lies inside the rectangle (the right and bottom edges are
    /// exclusive).
    pub open spec fn spec_contains(self, p: Point) -> bool {
        &&& self.loc.x <= p.x < self.loc.x + self.size.w
        &&& self.loc.y <= p.y < self.loc.y + self.size.h
    }

    /// Point-in-rectangle test used by output hit testing.
    pub fn contains(&self, p: Point) -> (r: bool)
        ensures
            r == self.spec_contains(p),
    {
        let right: i64 = self.loc.x as i64 + self.size.w as i64;
        let bottom: i64 = self.loc.y as i64 + self.size.h as i64;
        self.loc.x <= p.x && (p.x as i64) < right && self.loc.y <= p.y && (p.y as i64) < bottom
    }
}

} // verus!
