//! Rectangles with whole-number sides.

use vstd::prelude::*;

verus! {

/// A rectangle given by its two sides.
#[derive(Debug)]
pub struct Rectangle {
    pub width: u32,
    pub height: u32,
}

impl Rectangle {
    /// The number of unit squares that the rectangle covers.
    pub open spec fn spec_area(&self) -> int {
        self.width * self.height
    }

    /// The area of a rectangle whose area fits in a `u32`.
    pub fn area(&self) -> (area: u32)
        requires
            self.spec_area() <= u32::MAX,
        ensures
            area == self.spec_area(),
    {
        self.width * self.height
    }

    /// Tells whether the rectangle has a width at all.
    pub fn width(&self) -> (nonzero: bool)
        ensures
            nonzero == (self.width > 0),
    {
        self.width > 0
    }

    /// Tells whether `other` fits inside the rectangle with room to spare on
    /// both sides, without being turned.
    pub fn can_hold(&self, other: &Rectangle) -> (holds: bool)
        ensures
            holds == (self.width > other.width && self.height > other.height),
    {
        self.width > other.width && self.height > other.height
    }

    /// The square with the given side.
    pub fn square(size: u32) -> (square: Rectangle)
        ensures
            square.width == size,
            square.height == size,
    {
        Rectangle { width: size, height: size }
    }
}

/// The area of a rectangle whose area fits in a `u32`.
pub fn area(rectangle: &Rectangle) -> (area: u32)
    requires
        rectangle.spec_area() <= u32::MAX,
    ensures
        area == rectangle.spec_area(),
{
    rectangle.width * rectangle.height
}

} // verus!
