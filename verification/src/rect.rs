//! Rectangles and four ways of computing their area.

use vstd::prelude::*;

verus! {

/// A rectangle measured in whole pixels.
#[derive(Debug)]
pub struct Rectangle {
    pub width: u32,
    pub height: u32,
}

/// The area of a `width` by `height` rectangle, as a mathematical integer.
pub open spec fn area_of(width: int, height: int) -> int {
    width * height
}

impl Rectangle {
    /// The area of this rectangle, as a mathematical integer.
    pub open spec fn spec_area(&self) -> int {
        area_of(self.width as int, self.height as int)
    }

    /// Whether `self` is strictly wider and strictly taller than `other`.
    pub open spec fn spec_can_hold(&self, other: &Rectangle) -> bool {
        self.width > other.width && self.height > other.height
    }

    /// A rectangle whose sides both measure `size`.
    pub fn square(size: u32) -> (r: Rectangle)
        ensures
            r.width == size,
            r.height == size,
    {
        Rectangle { width: size, height: size }
    }

    /// The area of this rectangle.
    pub fn area(&self) -> (a: u32)
        requires
            self.spec_area() <= u32::MAX,
        ensures
            a == self.spec_area(),
    {
        self.width * self.height
    }

    /// Whether `other` fits strictly inside `self`.
    pub fn can_hold(&self, other: &Rectangle) -> (b: bool)
        ensures
            b == self.spec_can_hold(other),
    {
        self.width > other.width && self.height > other.height
    }
}

/// The area of a rectangle given by its two sides.
pub fn area_v1(width: u32, height: u32) -> (a: u32)
    requires
        area_of(width as int, height as int) <= u32::MAX,
    ensures
        a == area_of(width as int, height as int),
{
    width * height
}

/// The area of a rectangle given by its sides as a pair, width first.
pub fn area_v2(dimensions: (u32, u32)) -> (a: u32)
    requires
        area_of(dimensions.0 as int, dimensions.1 as int) <= u32::MAX,
    ensures
        a == area_of(dimensions.0 as int, dimensions.1 as int),
{
    dimensions.0 * dimensions.1
}

/// The area of `rectangle`.
pub fn area_v3(rectangle: &Rectangle) -> (a: u32)
    requires
        rectangle.spec_area() <= u32::MAX,
    ensures
        a == rectangle.spec_area(),
{
    rectangle.width * rectangle.height
}

/// The four ways of computing an area agree, and a square of side `size` has
/// the area `size * size`.
pub proof fn lemma_areas_agree(width: u32, height: u32, size: u32)
    ensures
        (Rectangle { width, height }).spec_area() == area_of(width as int, height as int),
        (Rectangle { width: size, height: size }).spec_area() == size * size,
{
}

/// A rectangle holds only what is strictly smaller: none holds itself, and
/// two rectangles never hold each other.
pub proof fn lemma_can_hold_is_strict(a: Rectangle, b: Rectangle)
    ensures
        !a.spec_can_hold(&a),
        !(a.spec_can_hold(&b) && b.spec_can_hold(&a)),
        a.spec_can_hold(&b) ==> a.spec_area() > b.spec_area(),
{
    if a.spec_can_hold(&b) {
        assert(a.width * a.height > b.width * b.height) by (nonlinear_arith)
            requires
                a.width > b.width,
                a.height > b.height,
                b.width >= 0,
                b.height >= 0,
        ;
    }
}

} // verus!
