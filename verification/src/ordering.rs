//! The total order on points: by `x` first, by `y` among equal `x`.

use std::cmp::Ordering;
use vstd::prelude::*;
use crate::point::Point;

verus! {

impl Point {
    /// Compares two points by `x` first and by `y` among equal `x`.
    pub fn total_cmp(self, other: &Point) -> (r: Ordering)
        ensures
            (r == Ordering::Less) == self.precedes(*other),
            (r == Ordering::Equal) == (self == *other),
            (r == Ordering::Greater) == other.precedes(self),
    {
        if self.x < other.x {
            Ordering::Less
        } else if self.x > other.x {
            Ordering::Greater
        } else if self.y < other.y {
            Ordering::Less
        } else if self.y > other.y {
            Ordering::Greater
        } else {
            Ordering::Equal
        }
    }
}

impl PartialOrd for Point {
    fn partial_cmp(&self, other: &Point) -> (r: Option<Ordering>) {
        Some(self.total_cmp(other))
    }
}

impl vstd::std_specs::cmp::PartialOrdSpecImpl for Point {
    open spec fn obeys_partial_cmp_spec() -> bool {
        true
    }

    open spec fn partial_cmp_spec(&self, other: &Point) -> Option<Ordering> {
        Some(
            if self.precedes(*other) {
                Ordering::Less
            } else if *self == *other {
                Ordering::Equal
            } else {
                Ordering::Greater
            },
        )
    }
}

/// The smallest of the points, or nothing when there is none.
pub fn points_min(points: &Vec<Point>) -> (r: Option<Point>)
    ensures
        (r is None) == (points@.len() == 0),
        r matches Some(m) ==> points@.contains(m) && forall|i: int|
            0 <= i < points@.len() ==> !(#[trigger] points@[i]).precedes(m),
{
    let n: usize = points.len();
    if n == 0 {
        return None;
    }
    let mut best: Point = points[0];
    let mut i: usize = 1;
    while i < n
        invariant
            1 <= i <= n,
            n == points@.len(),
            points@.contains(best),
            forall|j: int| 0 <= j < i ==> !(#[trigger] points@[j]).precedes(best),
        decreases n - i,
    {
        if points[i].lt(best) {
            best = points[i];
        }
        i += 1;
    }
    Some(best)
}

/// The largest of the points, or nothing when there is none.
pub fn points_max(points: &Vec<Point>) -> (r: Option<Point>)
    ensures
        (r is None) == (points@.len() == 0),
        r matches Some(m) ==> points@.contains(m) && forall|i: int|
            0 <= i < points@.len() ==> !m.precedes(#[trigger] points@[i]),
{
    let n: usize = points.len();
    if n == 0 {
        return None;
    }
    let mut best: Point = points[0];
    let mut i: usize = 1;
    while i < n
        invariant
            1 <= i <= n,
            n == points@.len(),
            points@.contains(best),
            forall|j: int| 0 <= j < i ==> !best.precedes(#[trigger] points@[j]),
        decreases n - i,
    {
        if best.lt(points[i]) {
            best = points[i];
        }
        i += 1;
    }
    Some(best)
}

} // verus!
