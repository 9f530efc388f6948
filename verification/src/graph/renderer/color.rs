//! RGB colors.
use vstd::prelude::*;

verus! {

/// An RGB color.
#[derive(Clone, Copy, PartialEq, Eq, Structural, Debug)]
pub struct Color {
    pub r: u8,
    pub g: u8,
    pub b: u8,
}

impl Color {
    pub fn new(r: u8, g: u8, b: u8) -> (c: Color)
        ensures
            c == (Color { r, g, b }),
    {
        Color { r, g, b }
    }

    pub fn r(&self) -> (v: u8)
        ensures
            v == self.r,
    {
        self.r
    }

    pub fn g(&self) -> (v: u8)
        ensures
            v == self.g,
    {
        self.g
    }

    pub fn b(&self) -> (v: u8)
        ensures
            v == self.b,
    {
        self.b
    }

    /// The color whose red, green and blue levels are the three components of `rgb`.
    pub fn from_rgb(rgb: (u8, u8, u8)) -> (c: Color)
        ensures
            c == (Color { r: rgb.0, g: rgb.1, b: rgb.2 }),
    {
        Color { r: rgb.0, g: rgb.1, b: rgb.2 }
    }
}

} // verus!
