//! Integer positions, sizes and rectangles on the pixel grid.

use vstd::prelude::*;

verus! {

/// A position on the pixel grid, ordered by column, then by row.
#[derive(Clone, Copy, Debug, PartialEq, Eq, PartialOrd, Ord, Hash, Structural)]
pub struct Point {
    pub x: i32,
    pub y: i32,
}

impl Point {
    pub fn new(x: i32, y: i32) -> (p: Point)
        ensures
            p.x == x,
            p.y == y,
    {
        Point { x, y }
    }
}

/// A width and a height, in pixels.
#[derive(Clone, Copy, Debug, PartialEq, Eq, Hash, Structural)]
pub struct Size {
    pub x: i32,
    pub y: i32,
}

impl Size {
    pub fn new(x: i32, y: i32) -> (s: Size)
        ensures
            s.x == x,
            s.y == y,
    {
        Size { x, y }
    }
}

/// An axis-aligned rectangle: its top left corner and its extent.
#[derive(Clone, Copy, Debug, PartialEq, Eq, Hash, Structural)]
pub struct Rect {
    pub x: i32,
    pub y: i32,
    pub w: i32,
    pub h: i32,
}

impl Rect {
    pub fn new(x: i32, y: i32, w: i32, h: i32) -> (r: Rect)
        ensures
            r.x == x,
            r.y == y,
            r.w == w,
            r.h == h,
    {
        Rect { x, y, w, h }
    }

    /// The top left corner.
    pub fn pos(&self) -> (p: Point)
        ensures
            p.x == self.x,
            p.y == self.y,
    {
        Point { x: self.x, y: self.y }
    }
}

} // verus!
