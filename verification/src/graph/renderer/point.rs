//! Points of the SVG plane.
use vstd::prelude::*;

verus! {

/// A point of the SVG plane.
#[derive(Clone, Copy, PartialEq, Eq, Structural, Debug)]
pub struct Point {
    pub x: i32,
    pub y: i32,
}

impl Point {
    pub fn new(x: i32, y: i32) -> (p: Point)
        ensures
            p == (Point { x, y }),
    {
        Point { x, y }
    }

    pub fn x(&self) -> (v: i32)
        ensures
            v == self.x,
    {
        self.x
    }

    pub fn y(&self) -> (v: i32)
        ensures
            v == self.y,
    {
        self.y
    }
}

} // verus!
