//! Segments between two lattice points.

use vstd::prelude::*;
use crate::point::Point;

verus! {

/// A segment given by its two endpoints, in the order in which they were
/// supplied. Its canonical form does not depend on that order.
#[derive(Debug, Clone, Copy, PartialEq, Eq, Structural, Hash)]
pub struct Edge {
    pub a: Point,
    pub b: Point,
}

impl Edge {
    /// The same segment with the smaller endpoint first.
    pub open spec fn canonical_form(self) -> Edge {
        if self.b.precedes(self.a) {
            Edge { a: self.b, b: self.a }
        } else {
            self
        }
    }

    /// The same segment traversed the other way.
    pub open spec fn reversed(self) -> Edge {
        Edge { a: self.b, b: self.a }
    }

    /// The smaller endpoint comes first.
    pub open spec fn is_canonical(self) -> bool {
        !self.b.precedes(self.a)
    }

    /// The segment from `a` to `b`.
    pub fn new(a: Point, b: Point) -> (e: Edge)
        ensures
            e == (Edge { a, b }),
    {
        Edge { a, b }
    }

    /// Orders the endpoints so that the smaller point is first.
    pub fn canonical(&self) -> (e: Edge)
        ensures
            e == self.canonical_form(),
    {
        Edge::new(self.a.min(self.b), self.a.max(self.b))
    }

    /// The same segment from `b` to `a`.
    pub fn flip(&self) -> (e: Edge)
        ensures
            e == self.reversed(),
    {
        Edge::new(self.b, self.a)
    }

    /// The squared distance between the endpoints.
    pub fn length_squared(&self) -> (r: i64)
        requires
            self.a.valid(),
            self.b.valid(),
        ensures
            r == self.a.distance_squared_to(self.b),
    {
        self.a.distance_squared(self.b)
    }
}

/// An edge and its reversal have the same canonical form, and the canonical
/// form is canonical.
pub proof fn lemma_canonical_ignores_direction(e: Edge)
    ensures
        e.reversed().canonical_form() == e.canonical_form(),
        e.canonical_form().is_canonical(),
        e.canonical_form().canonical_form() == e.canonical_form(),
        e.canonical_form() == e || e.canonical_form() == e.reversed(),
{
}

} // verus!
