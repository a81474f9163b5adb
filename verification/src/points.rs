//! Points with coordinates of any type.

use vstd::prelude::*;

verus! {

/// A point whose two coordinates have one type.
pub struct Point<T> {
    pub x: T,
    pub y: T,
}

/// A point whose two coordinates may differ in type.
pub struct MultiTypePoint<X1, Y1> {
    pub x: X1,
    pub y: Y1,
}

impl<T> Point<T> {
    /// The first coordinate.
    pub fn x(&self) -> (x: &T)
        ensures
            *x == self.x,
    {
        &self.x
    }
}

impl<X1, Y1> MultiTypePoint<X1, Y1> {
    /// The point with the first coordinate of `self` and the second of
    /// `other`.
    pub fn mixup<X2, Y2>(self, other: MultiTypePoint<X2, Y2>) -> (mixed: MultiTypePoint<X1, Y2>)
        ensures
            mixed.x == self.x,
            mixed.y == other.y,
    {
        MultiTypePoint { x: self.x, y: other.y }
    }
}

} // verus!
