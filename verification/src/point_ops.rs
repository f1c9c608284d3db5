//! The order of tiles and their sums.
//!
//! One tile comes before another when it lies above it and to its left:
//! when both of its coordinates are smaller. Two tiles of which neither
//! lies so to the other, and which are not the same, are not ordered.

use crate::point::Point;
use core::cmp::Ordering;
use vstd::prelude::*;
use vstd::std_specs::cmp::PartialOrdSpecImpl;
use vstd::std_specs::ops::AddSpecImpl;

verus! {

impl PartialOrd for Point {
    fn partial_cmp(&self, other: &Point) -> (r: Option<Ordering>) {
        if self.x == other.x && self.y == other.y {
            Some(Ordering::Equal)
        } else if self.x < other.x && self.y < other.y {
            Some(Ordering::Less)
        } else if self.x > other.x && self.y > other.y {
            Some(Ordering::Greater)
        } else {
            None
        }
    }
}

impl PartialOrdSpecImpl for Point {
    open spec fn obeys_partial_cmp_spec() -> bool {
        true
    }

    open spec fn partial_cmp_spec(&self, other: &Point) -> Option<Ordering> {
        if self.x == other.x && self.y == other.y {
            Some(Ordering::Equal)
        } else if self.x < other.x && self.y < other.y {
            Some(Ordering::Less)
        } else if self.x > other.x && self.y > other.y {
            Some(Ordering::Greater)
        } else {
            None
        }
    }
}

impl core::ops::Add<Point> for Point {
    type Output = Point;

    /// The tile that lies as far from `self` as `rhs` lies from the
    /// origin.
    fn add(self, rhs: Point) -> (r: Point) {
        Point { x: self.x + rhs.x, y: self.y + rhs.y }
    }
}

impl AddSpecImpl<Point> for Point {
    open spec fn obeys_add_spec() -> bool {
        true
    }

    open spec fn add_req(self, rhs: Point) -> bool {
        &&& i32::MIN <= self.x + rhs.x <= i32::MAX
        &&& i32::MIN <= self.y + rhs.y <= i32::MAX
    }

    open spec fn add_spec(self, rhs: Point) -> Point {
        Point { x: (self.x + rhs.x) as i32, y: (self.y + rhs.y) as i32 }
    }
}

impl core::ops::Add<(i32, i32)> for Point {
    type Output = Point;

    /// The tile `rhs.0` columns and `rhs.1` rows away.
    fn add(self, rhs: (i32, i32)) -> (r: Point) {
        Point { x: self.x + rhs.0, y: self.y + rhs.1 }
    }
}

impl AddSpecImpl<(i32, i32)> for Point {
    open spec fn obeys_add_spec() -> bool {
        true
    }

    open spec fn add_req(self, rhs: (i32, i32)) -> bool {
        &&& i32::MIN <= self.x + rhs.0 <= i32::MAX
        &&& i32::MIN <= self.y + rhs.1 <= i32::MAX
    }

    open spec fn add_spec(self, rhs: (i32, i32)) -> Point {
        Point { x: (self.x + rhs.0) as i32, y: (self.y + rhs.1) as i32 }
    }
}

} // verus!
