//! Lattice points and the arithmetic the triangulation needs from them.

use vstd::prelude::*;
use crate::algebra::lemma_bounded_product;

verus! {

/// Largest magnitude of a coordinate for which every derived quantity of a
/// triangle (circumcenter numerators, squared circumradius) fits in 128 bits.
pub const COORD_LIMIT: i64 = 524288;

/// A point of the plane with integer coordinates.
///
/// Two points are equal when both coordinates are equal. Points are ordered
/// by `x` first and by `y` among equal `x`.
#[derive(Debug, Clone, Copy, PartialEq, Eq, Structural, Hash)]
pub struct Point {
    pub x: i64,
    pub y: i64,
}

impl Default for Point {
    /// The origin.
    fn default() -> (p: Point)
        ensures
            p.x == 0,
            p.y == 0,
    {
        Point { x: 0, y: 0 }
    }
}

impl From<[i64; 2]> for Point {
    /// The point with the two coordinates `x` and `y`, in this order.
    fn from(coords: [i64; 2]) -> (p: Point) {
        Point { x: coords[0], y: coords[1] }
    }
}

impl vstd::std_specs::convert::FromSpecImpl<[i64; 2]> for Point {
    open spec fn obeys_from_spec() -> bool {
        true
    }

    open spec fn from_spec(coords: [i64; 2]) -> Point {
        Point { x: coords@[0], y: coords@[1] }
    }
}

impl Point {
    /// Both coordinates lie within `COORD_LIMIT` of zero.
    pub open spec fn valid(self) -> bool {
        &&& -COORD_LIMIT <= self.x <= COORD_LIMIT
        &&& -COORD_LIMIT <= self.y <= COORD_LIMIT
    }

    /// The strict order on points: by `x`, then by `y`.
    pub open spec fn precedes(self, other: Point) -> bool {
        self.x < other.x || (self.x == other.x && self.y < other.y)
    }

    /// The inner product of the two coordinate vectors.
    pub open spec fn dot_of(self, other: Point) -> int {
        self.x * other.x + self.y * other.y
    }

    /// The squared distance from the origin.
    pub open spec fn norm_squared(self) -> int {
        self.x * self.x + self.y * self.y
    }

    /// The squared distance between two points.
    pub open spec fn distance_squared_to(self, other: Point) -> int {
        (self.x - other.x) * (self.x - other.x) + (self.y - other.y) * (self.y - other.y)
    }

    /// The point with the coordinates `x` and `y`.
    pub fn new(x: i64, y: i64) -> (p: Point)
        ensures
            p.x == x,
            p.y == y,
    {
        Point { x, y }
    }

    /// The origin.
    pub fn zero() -> (p: Point)
        ensures
            p.x == 0,
            p.y == 0,
            p.valid(),
    {
        Point { x: 0, y: 0 }
    }

    /// The point with both coordinates one.
    pub fn one() -> (p: Point)
        ensures
            p.x == 1,
            p.y == 1,
            p.valid(),
    {
        Point { x: 1, y: 1 }
    }

    /// Whether `self` comes strictly before `other` in the order on points.
    pub fn lt(self, other: Point) -> (r: bool)
        ensures
            r == self.precedes(other),
    {
        self.x < other.x || (self.x == other.x && self.y < other.y)
    }

    /// The smaller of two points; `self` when they are equal.
    pub fn min(self, other: Point) -> (r: Point)
        ensures
            r == (if other.precedes(self) { other } else { self }),
    {
        if other.lt(self) {
            other
        } else {
            self
        }
    }

    /// The larger of two points; `self` when they are equal.
    pub fn max(self, other: Point) -> (r: Point)
        ensures
            r == (if self.precedes(other) { other } else { self }),
    {
        if self.lt(other) {
            other
        } else {
            self
        }
    }

    /// The inner product of the two coordinate vectors.
    pub fn dot(self, other: Point) -> (r: i64)
        requires
            self.valid(),
            other.valid(),
        ensures
            r == self.dot_of(other),
    {
        proof {
            lemma_bounded_product(self.x as int, other.x as int, 0x8_0000, 0x8_0000);
            lemma_bounded_product(self.y as int, other.y as int, 0x8_0000, 0x8_0000);
        }
        self.x * other.x + self.y * other.y
    }

    /// The squared distance from the origin.
    pub fn length_squared(self) -> (r: i64)
        requires
            self.valid(),
        ensures
            r == self.norm_squared(),
    {
        proof {
            lemma_bounded_product(self.x as int, self.x as int, 0x8_0000, 0x8_0000);
            lemma_bounded_product(self.y as int, self.y as int, 0x8_0000, 0x8_0000);
        }
        self.x * self.x + self.y * self.y
    }

    /// The squared distance to `other`.
    pub fn distance_squared(self, other: Point) -> (r: i64)
        requires
            self.valid(),
            other.valid(),
        ensures
            r == self.distance_squared_to(other),
    {
        let dx: i64 = self.x - other.x;
        let dy: i64 = self.y - other.y;
        proof {
            lemma_bounded_product(dx as int, dx as int, 0x10_0000, 0x10_0000);
            lemma_bounded_product(dy as int, dy as int, 0x10_0000, 0x10_0000);
        }
        dx * dx + dy * dy
    }
}

} // verus!
