//! Axis-aligned boxes around sets of lattice points.

use vstd::prelude::*;
use crate::point::Point;

verus! {

/// The axis-aligned rectangle between a lower and an upper corner.
#[derive(Debug, Clone, Copy, PartialEq, Eq, Structural, Hash)]
pub struct BoundingBox {
    pub lower: Point,
    pub upper: Point,
}

impl From<(Point, Point)> for BoundingBox {
    /// The smallest box that holds both points.
    fn from(value: (Point, Point)) -> (r: BoundingBox) {
        BoundingBox::new(value.0, value.1)
    }
}

impl vstd::std_specs::convert::FromSpecImpl<(Point, Point)> for BoundingBox {
    open spec fn obeys_from_spec() -> bool {
        true
    }

    open spec fn from_spec(value: (Point, Point)) -> BoundingBox {
        BoundingBox::around(value.0).extended(value.1)
    }
}

impl BoundingBox {
    /// The box that holds `p` and nothing else.
    pub open spec fn around(p: Point) -> BoundingBox {
        BoundingBox { lower: p, upper: p }
    }

    /// The smallest box that holds this box and `p`.
    pub open spec fn extended(self, p: Point) -> BoundingBox {
        BoundingBox {
            lower: Point {
                x: if p.x < self.lower.x { p.x } else { self.lower.x },
                y: if p.y < self.lower.y { p.y } else { self.lower.y },
            },
            upper: Point {
                x: if p.x > self.upper.x { p.x } else { self.upper.x },
                y: if p.y > self.upper.y { p.y } else { self.upper.y },
            },
        }
    }

    /// `p` lies in the box, its border included.
    pub open spec fn holds(self, p: Point) -> bool {
        &&& self.lower.x <= p.x <= self.upper.x
        &&& self.lower.y <= p.y <= self.upper.y
    }

    /// Both corners are within range, the lower one below and left of the
    /// upper one.
    pub open spec fn valid(self) -> bool {
        &&& self.lower.valid()
        &&& self.upper.valid()
        &&& self.lower.x <= self.upper.x
        &&& self.lower.y <= self.upper.y
    }

    /// The extent along `x`.
    pub open spec fn width(self) -> int {
        self.upper.x - self.lower.x
    }

    /// The extent along `y`.
    pub open spec fn height(self) -> int {
        self.upper.y - self.lower.y
    }

    /// The smallest box that holds both points.
    pub fn new(a: Point, b: Point) -> (r: BoundingBox)
        ensures
            r == BoundingBox::around(a).extended(b),
            r.holds(a),
            r.holds(b),
    {
        BoundingBox {
            lower: Point {
                x: if b.x < a.x { b.x } else { a.x },
                y: if b.y < a.y { b.y } else { a.y },
            },
            upper: Point {
                x: if b.x > a.x { b.x } else { a.x },
                y: if b.y > a.y { b.y } else { a.y },
            },
        }
    }

    /// Width and height, as the coordinates of a point.
    pub fn dimensions(&self) -> (r: Point)
        requires
            self.lower.valid(),
            self.upper.valid(),
        ensures
            r.x == self.width(),
            r.y == self.height(),
    {
        Point { x: self.upper.x - self.lower.x, y: self.upper.y - self.lower.y }
    }

    /// The lattice point at the middle of the box; where the middle falls
    /// between two lattice points, the one nearer to the lower corner.
    pub fn center(&self) -> (r: Point)
        requires
            self.valid(),
        ensures
            r.x == self.lower.x + self.width() / 2,
            r.y == self.lower.y + self.height() / 2,
            self.holds(r),
            r.valid(),
    {
        Point {
            x: self.lower.x + (self.upper.x - self.lower.x) / 2,
            y: self.lower.y + (self.upper.y - self.lower.y) / 2,
        }
    }

    /// The area of the box.
    pub fn volume(&self) -> (r: i64)
        requires
            self.valid(),
        ensures
            r == self.width() * self.height(),
    {
        let w: i64 = self.upper.x - self.lower.x;
        let h: i64 = self.upper.y - self.lower.y;
        proof {
            crate::algebra::lemma_bounded_product(w as int, h as int, 0x10_0000, 0x10_0000);
        }
        w * h
    }

    /// Whether `p` lies in the box, its border included.
    pub fn contains(&self, p: Point) -> (r: bool)
        ensures
            r == self.holds(p),
    {
        self.lower.x <= p.x && p.x <= self.upper.x && self.lower.y <= p.y && p.y <= self.upper.y
    }
}

/// The smallest box that holds every point of a sequence that is not empty.
pub open spec fn bounding_box_of(s: Seq<Point>) -> BoundingBox
    decreases s.len(),
{
    if s.len() <= 1 {
        BoundingBox::around(s[0])
    } else {
        bounding_box_of(s.drop_last()).extended(s.last())
    }
}

/// `bb` holds every point of `s`, and on each of its four sides lies one.
pub open spec fn is_bounding_box_of(bb: BoundingBox, s: Seq<Point>) -> bool {
    &&& forall|i: int| 0 <= i < s.len() ==> bb.holds(#[trigger] s[i])
    &&& exists|i: int| 0 <= i < s.len() && (#[trigger] s[i]).x == bb.lower.x
    &&& exists|i: int| 0 <= i < s.len() && (#[trigger] s[i]).y == bb.lower.y
    &&& exists|i: int| 0 <= i < s.len() && (#[trigger] s[i]).x == bb.upper.x
    &&& exists|i: int| 0 <= i < s.len() && (#[trigger] s[i]).y == bb.upper.y
}

/// The box that grows with the sequence is the tight box around its points.
pub proof fn lemma_bounding_box_is_tight(s: Seq<Point>)
    requires
        s.len() > 0,
    ensures
        is_bounding_box_of(bounding_box_of(s), s),
    decreases s.len(),
{
    let bb = bounding_box_of(s);
    if s.len() == 1 {
        assert(s[0].x == bb.lower.x);
        assert(s[0].y == bb.lower.y);
        assert(s[0].x == bb.upper.x);
        assert(s[0].y == bb.upper.y);
    } else {
        let s0 = s.drop_last();
        let b0 = bounding_box_of(s0);
        let p = s.last();
        let n = s.len() - 1;
        lemma_bounding_box_is_tight(s0);
        assert forall|i: int| 0 <= i < s.len() implies bb.holds(#[trigger] s[i]) by {
            if i < n {
                assert(b0.holds(s0[i]));
            }
        }
        let i0 = choose|i: int| 0 <= i < s0.len() && (#[trigger] s0[i]).x == b0.lower.x;
        assert(s[if p.x < b0.lower.x { n } else { i0 }].x == bb.lower.x);
        let i1 = choose|i: int| 0 <= i < s0.len() && (#[trigger] s0[i]).y == b0.lower.y;
        assert(s[if p.y < b0.lower.y { n } else { i1 }].y == bb.lower.y);
        let i2 = choose|i: int| 0 <= i < s0.len() && (#[trigger] s0[i]).x == b0.upper.x;
        assert(s[if p.x > b0.upper.x { n } else { i2 }].x == bb.upper.x);
        let i3 = choose|i: int| 0 <= i < s0.len() && (#[trigger] s0[i]).y == b0.upper.y;
        assert(s[if p.y > b0.upper.y { n } else { i3 }].y == bb.upper.y);
    }
}

/// Two tight boxes around the same points are the same box.
pub proof fn lemma_bounding_box_is_unique(a: BoundingBox, b: BoundingBox, s: Seq<Point>)
    requires
        is_bounding_box_of(a, s),
        is_bounding_box_of(b, s),
    ensures
        a == b,
{
    let i0 = choose|i: int| 0 <= i < s.len() && (#[trigger] s[i]).x == a.lower.x;
    let j0 = choose|i: int| 0 <= i < s.len() && (#[trigger] s[i]).x == b.lower.x;
    assert(b.holds(s[i0]) && a.holds(s[j0]));
    let i1 = choose|i: int| 0 <= i < s.len() && (#[trigger] s[i]).y == a.lower.y;
    let j1 = choose|i: int| 0 <= i < s.len() && (#[trigger] s[i]).y == b.lower.y;
    assert(b.holds(s[i1]) && a.holds(s[j1]));
    let i2 = choose|i: int| 0 <= i < s.len() && (#[trigger] s[i]).x == a.upper.x;
    let j2 = choose|i: int| 0 <= i < s.len() && (#[trigger] s[i]).x == b.upper.x;
    assert(b.holds(s[i2]) && a.holds(s[j2]));
    let i3 = choose|i: int| 0 <= i < s.len() && (#[trigger] s[i]).y == a.upper.y;
    let j3 = choose|i: int| 0 <= i < s.len() && (#[trigger] s[i]).y == b.upper.y;
    assert(b.holds(s[i3]) && a.holds(s[j3]));
}

impl Point {
    /// The smallest box that holds all the points, or nothing when there is
    /// no point.
    pub fn bounding_box(points: &Vec<Point>) -> (r: Option<BoundingBox>)
        ensures
            (r is None) == (points@.len() == 0),
            r matches Some(bb) ==> bb == bounding_box_of(points@) && is_bounding_box_of(
                bb,
                points@,
            ),
    {
        let n: usize = points.len();
        if n == 0 {
            return None;
        }
        let mut lower: Point = points[0];
        let mut upper: Point = points[0];
        let mut i: usize = 1;
        proof {
            assert(points@.take(1).len() == 1);
        }
        while i < n
            invariant
                1 <= i <= n,
                n == points@.len(),
                (BoundingBox { lower, upper }) == bounding_box_of(points@.take(i as int)),
            decreases n - i,
        {
            let p: Point = points[i];
            proof {
                assert(points@.take(i + 1).drop_last() =~= points@.take(i as int));
            }
            if p.x < lower.x {
                lower.x = p.x;
            }
            if p.y < lower.y {
                lower.y = p.y;
            }
            if p.x > upper.x {
                upper.x = p.x;
            }
            if p.y > upper.y {
                upper.y = p.y;
            }
            i += 1;
        }
        proof {
            assert(points@.take(n as int) =~= points@);
            lemma_bounding_box_is_tight(points@);
        }
        Some(BoundingBox { lower, upper })
    }
}

} // verus!
