//! Points that add coordinate by coordinate, and lengths that add across
//! units.

use vstd::prelude::*;
use core::ops::Add;
use vstd::std_specs::ops::AddSpecImpl;

verus! {

/// A point of the plane with whole coordinates.
#[derive(Clone, Copy, Debug, PartialEq, Eq, Structural)]
pub struct Point {
    pub x: i32,
    pub y: i32,
}

impl Point {
    /// Both coordinate sums fit in an `i32`.
    pub open spec fn sum_fits(self, other: Point) -> bool {
        &&& i32::MIN <= self.x + other.x <= i32::MAX
        &&& i32::MIN <= self.y + other.y <= i32::MAX
    }

    /// The sum of two points, coordinate by coordinate.
    pub open spec fn sum(self, other: Point) -> Point {
        Point { x: (self.x + other.x) as i32, y: (self.y + other.y) as i32 }
    }
}

impl Add for Point {
    type Output = Point;

    /// The sum of two points, coordinate by coordinate.
    fn add(self, other: Point) -> (sum: Point) {
        Point { x: self.x + other.x, y: self.y + other.y }
    }
}

impl AddSpecImpl for Point {
    open spec fn obeys_add_spec() -> bool {
        true
    }

    open spec fn add_req(self, other: Point) -> bool {
        self.sum_fits(other)
    }

    open spec fn add_spec(self, other: Point) -> Point {
        self.sum(other)
    }
}

/// A length in millimetres.
#[derive(Clone, Copy, Debug, PartialEq, Eq, Structural)]
pub struct Millimeters(pub u32);

/// A length in metres.
#[derive(Clone, Copy, Debug, PartialEq, Eq, Structural)]
pub struct Meters(pub u32);

/// How many millimetres make a metre.
pub const MILLIMETERS_PER_METER: u32 = 1000;

impl Millimeters {
    /// The sum with `other`, in millimetres, fits in a `u32`.
    pub open spec fn sum_fits(self, other: Meters) -> bool {
        self.0 + other.0 * MILLIMETERS_PER_METER <= u32::MAX
    }

    /// The sum with `other`, in millimetres.
    pub open spec fn sum(self, other: Meters) -> Millimeters {
        Millimeters((self.0 + other.0 * MILLIMETERS_PER_METER) as u32)
    }
}

impl Add<Meters> for Millimeters {
    type Output = Millimeters;

    /// The sum of a length in millimetres and a length in metres, in
    /// millimetres.
    fn add(self, other: Meters) -> (sum: Millimeters) {
        Millimeters(self.0 + other.0 * MILLIMETERS_PER_METER)
    }
}

impl AddSpecImpl<Meters> for Millimeters {
    open spec fn obeys_add_spec() -> bool {
        true
    }

    open spec fn add_req(self, other: Meters) -> bool {
        self.sum_fits(other)
    }

    open spec fn add_spec(self, other: Meters) -> Millimeters {
        self.sum(other)
    }
}

/// Adding points is commutative and adding the origin changes nothing.
pub proof fn lemma_point_addition(a: Point, b: Point)
    ensures
        a.sum_fits(b) <==> b.sum_fits(a),
        a.sum(b) == b.sum(a),
        a.sum_fits(Point { x: 0, y: 0 }),
        a.sum(Point { x: 0, y: 0 }) == a,
{
}

} // verus!
