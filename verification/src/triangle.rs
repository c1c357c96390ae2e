//! Triangles with their circumcircle, computed exactly.
//!
//! The circumcenter of a lattice triangle has rational coordinates. They are
//! kept as numerators over one common denominator, so that the containment
//! test compares integers and never rounds.

use vstd::prelude::*;
use crate::algebra::{
    lemma_bounded_product, lemma_cross_products, lemma_difference_of_offsets, lemma_expand_one,
    lemma_gather, lemma_lagrange, lemma_opposite_product, lemma_regroup,
    lemma_square_nonnegative, lemma_square_of_opposite, lemma_square_of_sum, lemma_sum_times,
    lemma_twice,
};
use crate::edge::Edge;
use crate::point::Point;

verus! {

/// A point with rational coordinates `x_num / den` and `y_num / den`.
#[derive(Debug, Clone, Copy, PartialEq, Eq, Structural, Hash)]
pub struct RationalPoint {
    pub x_num: i128,
    pub y_num: i128,
    pub den: i128,
}

/// The rational number `num / den`.
#[derive(Debug, Clone, Copy, PartialEq, Eq, Structural, Hash)]
pub struct Ratio {
    pub num: i128,
    pub den: i128,
}

/// The determinant of the linear system for the circumcenter: four times the
/// signed area of the triangle. It is zero exactly for collinear points.
pub open spec fn circum_det(a: Point, b: Point, c: Point) -> int {
    2 * (a.x * (b.y - c.y) + b.x * (c.y - a.y) + c.x * (a.y - b.y))
}

/// Numerator of the circumcenter's `x` over `circum_det`.
pub open spec fn circum_x(a: Point, b: Point, c: Point) -> int {
    a.norm_squared() * (b.y - c.y) + b.norm_squared() * (c.y - a.y) + c.norm_squared() * (a.y
        - b.y)
}

/// Numerator of the circumcenter's `y` over `circum_det`.
pub open spec fn circum_y(a: Point, b: Point, c: Point) -> int {
    a.norm_squared() * (c.x - b.x) + b.norm_squared() * (a.x - c.x) + c.norm_squared() * (b.x
        - a.x)
}

/// The squared distance from the circumcenter of `a b c` to `p`, multiplied
/// by the square of `circum_det`.
pub open spec fn offset_squared(a: Point, b: Point, c: Point, p: Point) -> int {
    let d = circum_det(a, b, c);
    let dx = circum_x(a, b, c) - p.x * d;
    let dy = circum_y(a, b, c) - p.y * d;
    dx * dx + dy * dy
}

/// `p` lies in the closed disk bounded by the circumcircle of `a b c`.
pub open spec fn in_circumcircle(a: Point, b: Point, c: Point, p: Point) -> bool {
    offset_squared(a, b, c, p) <= offset_squared(a, b, c, a)
}

/// `p` lies in the open disk bounded by the circumcircle of `a b c`.
pub open spec fn strictly_in_circumcircle(a: Point, b: Point, c: Point, p: Point) -> bool {
    offset_squared(a, b, c, p) < offset_squared(a, b, c, a)
}

/// Twice the signed area of the triangle `a b c`: positive where `c` lies to
/// the left of the line from `a` to `b`, zero where it lies on the line.
pub open spec fn orientation(a: Point, b: Point, c: Point) -> int {
    (b.x - a.x) * (c.y - a.y) - (b.y - a.y) * (c.x - a.x)
}

/// Sixteen times the squared area of the triangle `a b c` by Heron's
/// formula, from the squared lengths of its sides.
pub open spec fn heron(a: Point, b: Point, c: Point) -> int {
    let la = a.distance_squared_to(b);
    let lb = b.distance_squared_to(c);
    let lc = c.distance_squared_to(a);
    4 * (la * lb) - (la + lb - lc) * (la + lb - lc)
}

/// Three points that are not collinear, with the circumcenter and the squared
/// circumradius that were computed when the triangle was made.
#[derive(Debug, Clone, Copy, PartialEq, Eq, Structural, Hash)]
pub struct Triangle {
    pub a: Point,
    pub b: Point,
    pub c: Point,
    pub circumcenter: RationalPoint,
    pub circumradius_squared: Ratio,
}

impl Triangle {
    /// The triangle on three given vertices.
    pub open spec fn from_vertices(a: Point, b: Point, c: Point) -> Triangle {
        let d = circum_det(a, b, c);
        Triangle {
            a,
            b,
            c,
            circumcenter: RationalPoint {
                x_num: circum_x(a, b, c) as i128,
                y_num: circum_y(a, b, c) as i128,
                den: d as i128,
            },
            circumradius_squared: Ratio {
                num: offset_squared(a, b, c, a) as i128,
                den: (d * d) as i128,
            },
        }
    }

    /// The vertices are within range and not collinear, and the stored
    /// values are those of the vertices.
    pub open spec fn wf(self) -> bool {
        &&& self.a.valid()
        &&& self.b.valid()
        &&& self.c.valid()
        &&& circum_det(self.a, self.b, self.c) != 0
        &&& self == Triangle::from_vertices(self.a, self.b, self.c)
    }

    /// What `new` returns: nothing for collinear points, else the triangle.
    pub open spec fn spec_new(a: Point, b: Point, c: Point) -> Option<Triangle> {
        if circum_det(a, b, c) == 0 {
            None
        } else {
            Some(Triangle::from_vertices(a, b, c))
        }
    }

    /// `p` lies inside or on the circumcircle.
    pub open spec fn encloses(self, p: Point) -> bool {
        in_circumcircle(self.a, self.b, self.c, p)
    }

    /// `p` lies inside the circumcircle and not on it.
    pub open spec fn strictly_encloses(self, p: Point) -> bool {
        strictly_in_circumcircle(self.a, self.b, self.c, p)
    }

    /// `p` lies inside the triangle and not on its border: on the same side
    /// of all three sides.
    pub open spec fn strictly_contains(self, p: Point) -> bool {
        let ab = orientation(self.a, self.b, p);
        let bc = orientation(self.b, self.c, p);
        let ca = orientation(self.c, self.a, p);
        (ab > 0 && bc > 0 && ca > 0) || (ab < 0 && bc < 0 && ca < 0)
    }

    /// Four times the area: the magnitude of the determinant.
    pub open spec fn fourfold_area(self) -> int {
        let d = circum_det(self.a, self.b, self.c);
        if d < 0 {
            -d
        } else {
            d
        }
    }

    /// `p` is one of the three vertices.
    pub open spec fn touches(self, p: Point) -> bool {
        self.a == p || self.b == p || self.c == p
    }

    /// The three sides, from `a` to `b`, from `b` to `c` and from `c` to `a`.
    pub open spec fn edge_seq(self) -> Seq<Edge> {
        seq![
            Edge { a: self.a, b: self.b },
            Edge { a: self.b, b: self.c },
            Edge { a: self.c, b: self.a },
        ]
    }

    /// The three sides in canonical form.
    pub open spec fn canonical_edge_seq(self) -> Seq<Edge> {
        seq![
            (Edge { a: self.a, b: self.b }).canonical_form(),
            (Edge { a: self.b, b: self.c }).canonical_form(),
            (Edge { a: self.c, b: self.a }).canonical_form(),
        ]
    }

    /// Builds the triangle on three points, or nothing when they are
    /// collinear and so have no circumcircle.
    pub fn new(a: Point, b: Point, c: Point) -> (r: Option<Triangle>)
        requires
            a.valid(),
            b.valid(),
            c.valid(),
        ensures
            r == Triangle::spec_new(a, b, c),
            r matches Some(t) ==> t.wf() && t.a == a && t.b == b && t.c == c,
    {
        match Triangle::calc_circumcenter(a, b, c) {
            None => None,
            Some(circumcenter) => {
                let circumradius_squared = Triangle::calc_circumradius_squared(
                    a,
                    b,
                    c,
                    circumcenter,
                );
                Some(Triangle { a, b, c, circumcenter, circumradius_squared })
            },
        }
    }

    /// Solves the two-by-two linear system for the point equidistant from
    /// the three vertices. There is no solution when the determinant is zero.
    fn calc_circumcenter(a: Point, b: Point, c: Point) -> (r: Option<RationalPoint>)
        requires
            a.valid(),
            b.valid(),
            c.valid(),
        ensures
            (r is None) == (circum_det(a, b, c) == 0),
            r matches Some(u) ==> u.x_num == circum_x(a, b, c) && u.y_num == circum_y(a, b, c)
                && u.den == circum_det(a, b, c),
    {
        proof {
            lemma_circum_bounds(a, b, c);
        }
        let ax: i128 = a.x as i128;
        let ay: i128 = a.y as i128;
        let bx: i128 = b.x as i128;
        let by: i128 = b.y as i128;
        let cx: i128 = c.x as i128;
        let cy: i128 = c.y as i128;
        let d: i128 = 2 * (ax * (by - cy) + bx * (cy - ay) + cx * (ay - by));
        if d == 0 {
            return None;
        }
        let a_len_sq: i128 = a.length_squared() as i128;
        let b_len_sq: i128 = b.length_squared() as i128;
        let c_len_sq: i128 = c.length_squared() as i128;
        let ux: i128 = a_len_sq * (by - cy) + b_len_sq * (cy - ay) + c_len_sq * (ay - by);
        let uy: i128 = a_len_sq * (cx - bx) + b_len_sq * (ax - cx) + c_len_sq * (bx - ax);
        Some(RationalPoint { x_num: ux, y_num: uy, den: d })
    }

    /// The squared distance from the circumcenter to the first vertex.
    fn calc_circumradius_squared(a: Point, b: Point, c: Point, u: RationalPoint) -> (r: Ratio)
        requires
            a.valid(),
            b.valid(),
            c.valid(),
            u.x_num == circum_x(a, b, c),
            u.y_num == circum_y(a, b, c),
            u.den == circum_det(a, b, c),
        ensures
            r.num == offset_squared(a, b, c, a),
            r.den == circum_det(a, b, c) * circum_det(a, b, c),
    {
        proof {
            lemma_circum_bounds(a, b, c);
            lemma_offset_bounds(a, b, c, a);
        }
        let dx: i128 = u.x_num - (a.x as i128) * u.den;
        let dy: i128 = u.y_num - (a.y as i128) * u.den;
        Ratio { num: dx * dx + dy * dy, den: u.den * u.den }
    }

    /// The circumcenter, as numerators over a common denominator.
    pub fn circumcenter(&self) -> (r: RationalPoint)
        ensures
            r == self.circumcenter,
    {
        self.circumcenter
    }

    /// The squared circumradius, as a fraction.
    pub fn circumcircle_radius_squared(&self) -> (r: Ratio)
        ensures
            r == self.circumradius_squared,
    {
        self.circumradius_squared
    }

    /// Whether `p` lies inside or on the circumcircle. The test is exact, so
    /// a point on the circle itself counts as inside.
    pub fn is_inside_circumcircle(&self, p: Point) -> (r: bool)
        requires
            self.wf(),
            p.valid(),
        ensures
            r == self.encloses(p),
    {
        proof {
            lemma_circum_bounds(self.a, self.b, self.c);
            lemma_offset_bounds(self.a, self.b, self.c, p);
            lemma_offset_bounds(self.a, self.b, self.c, self.a);
        }
        let u = self.circumcenter;
        let dx: i128 = u.x_num - (p.x as i128) * u.den;
        let dy: i128 = u.y_num - (p.y as i128) * u.den;
        dx * dx + dy * dy <= self.circumradius_squared.num
    }

    /// The area as a fraction over four: the numerator is not negative and
    /// its square is sixteen times the squared area by Heron's formula.
    pub fn area(&self) -> (r: Ratio)
        requires
            self.wf(),
        ensures
            r.den == 4,
            r.num == self.fourfold_area(),
            r.num > 0,
            r.num * r.num == heron(self.a, self.b, self.c),
    {
        proof {
            lemma_circum_bounds(self.a, self.b, self.c);
            lemma_determinant_is_heron(self.a, self.b, self.c);
            let d = circum_det(self.a, self.b, self.c);
            assert((-d) * (-d) == d * d) by (nonlinear_arith);
        }
        let d: i128 = self.circumcenter.den;
        Ratio {
            num: if d < 0 {
                -d
            } else {
                d
            },
            den: 4,
        }
    }

    /// Whether `p` is one of the three vertices.
    pub fn has_point(&self, p: &Point) -> (r: bool)
        ensures
            r == self.touches(*p),
    {
        (self.a.x == p.x && self.a.y == p.y) || (self.b.x == p.x && self.b.y == p.y) || (self.c.x
            == p.x && self.c.y == p.y)
    }

    /// The three sides, from `a` to `b`, from `b` to `c` and from `c` to `a`.
    pub fn edges(&self) -> (r: [Edge; 3])
        ensures
            r@ == self.edge_seq(),
    {
        let r = [Edge::new(self.a, self.b), Edge::new(self.b, self.c), Edge::new(self.c, self.a)];
        assert(r@ =~= self.edge_seq());
        r
    }
}

/// The square of the determinant is sixteen times the squared area by
/// Heron's formula: the determinant is four times the area, up to sign.
pub proof fn lemma_determinant_is_heron(a: Point, b: Point, c: Point)
    ensures
        circum_det(a, b, c) * circum_det(a, b, c) == heron(a, b, c),
{
    let v1 = a.x - b.x;
    let v2 = a.y - b.y;
    let w1 = b.x - c.x;
    let w2 = b.y - c.y;
    let la = a.distance_squared_to(b);
    let lb = b.distance_squared_to(c);
    let lc = c.distance_squared_to(a);
    let dot = v1 * w1 + v2 * w2;
    let cross = v1 * w2 - v2 * w1;
    lemma_lagrange(v1, v2, w1, w2);
    assert(la * lb == dot * dot + cross * cross);
    // The third side closes the triangle.
    assert(lc == la + lb + 2 * dot) by {
        lemma_square_of_sum(v1, w1);
        lemma_square_of_sum(v2, w2);
        assert(c.x - a.x == -(v1 + w1) && c.y - a.y == -(v2 + w2));
        lemma_square_of_opposite(v1 + w1);
        lemma_square_of_opposite(v2 + w2);
    }
    assert((la + lb - lc) * (la + lb - lc) == 4 * (dot * dot)) by (nonlinear_arith)
        requires
            la + lb - lc == -(2 * dot),
    ;
    // The determinant is twice the cross product of two sides.
    lemma_cross_products(a.x as int, a.y as int, b.x as int, b.y as int, c.x as int, c.y as int);
    let h = a.x * (b.y - c.y) + b.x * (c.y - a.y) + c.x * (a.y - b.y);
    assert(cross == h) by {
        lemma_expand_one(-v1, b.y as int, c.y as int);
        lemma_opposite_product(v1, w2);
        lemma_opposite_product(v2, w1);
        assert((b.x - a.x) * (b.y - c.y) + (b.y - a.y) * (c.x - b.x) == -h);
        lemma_opposite_product(b.x - a.x, b.y - c.y);
        lemma_opposite_product(b.y - a.y, c.x - b.x);
    }
    assert((2 * h) * (2 * h) == 4 * (h * h)) by (nonlinear_arith);
}

/// The circumcenter lies on the perpendicular bisectors of the sides from
/// `a`: it solves the two linear equations that say so.
pub proof fn lemma_circumcenter_on_bisectors(a: Point, b: Point, c: Point)
    ensures
        2 * ((b.x - a.x) * circum_x(a, b, c) + (b.y - a.y) * circum_y(a, b, c)) == circum_det(
            a,
            b,
            c,
        ) * (b.norm_squared() - a.norm_squared()),
        2 * ((c.x - a.x) * circum_x(a, b, c) + (c.y - a.y) * circum_y(a, b, c)) == circum_det(
            a,
            b,
            c,
        ) * (c.norm_squared() - a.norm_squared()),
{
    let h = a.x * (b.y - c.y) + b.x * (c.y - a.y) + c.x * (a.y - b.y);
    let na = a.norm_squared();
    let nb = b.norm_squared();
    let nc = c.norm_squared();
    lemma_cross_products(a.x as int, a.y as int, b.x as int, b.y as int, c.x as int, c.y as int);
    lemma_regroup(
        b.x - a.x,
        b.y - a.y,
        na,
        nb,
        nc,
        b.y - c.y,
        c.y - a.y,
        a.y - b.y,
        c.x - b.x,
        a.x - c.x,
        b.x - a.x,
    );
    lemma_regroup(
        c.x - a.x,
        c.y - a.y,
        na,
        nb,
        nc,
        b.y - c.y,
        c.y - a.y,
        a.y - b.y,
        c.x - b.x,
        a.x - c.x,
        b.x - a.x,
    );
    assert(na * (-h) + nb * h + nc * 0 == h * (nb - na)) by (nonlinear_arith);
    assert(na * (-h) + nb * 0 + nc * h == h * (nc - na)) by (nonlinear_arith);
    assert((2 * h) * (nb - na) == 2 * (h * (nb - na))) by (nonlinear_arith);
    assert((2 * h) * (nc - na) == 2 * (h * (nc - na))) by (nonlinear_arith);
}

/// How much farther from the circumcenter `p` is than `q`, in squared
/// distance scaled by the square of the determinant.
pub proof fn lemma_offset_difference(a: Point, b: Point, c: Point, p: Point, q: Point)
    ensures
        offset_squared(a, b, c, p) - offset_squared(a, b, c, q) == circum_det(a, b, c) * (2 * ((q.x
            - p.x) * circum_x(a, b, c) + (q.y - p.y) * circum_y(a, b, c)) - (q.norm_squared()
            - p.norm_squared()) * circum_det(a, b, c)),
{
    let d = circum_det(a, b, c);
    let ux = circum_x(a, b, c);
    let uy = circum_y(a, b, c);
    lemma_difference_of_offsets(ux, p.x as int, q.x as int, d);
    lemma_difference_of_offsets(uy, p.y as int, q.y as int, d);
    let e1 = (q.x - p.x) * (2 * ux) - (q.x * q.x - p.x * p.x) * d;
    let e2 = (q.y - p.y) * (2 * uy) - (q.y * q.y - p.y * p.y) * d;
    let g = 2 * ((q.x - p.x) * ux + (q.y - p.y) * uy) - (q.norm_squared() - p.norm_squared()) * d;
    assert(e1 + e2 == g) by {
        lemma_twice(q.x - p.x, ux);
        lemma_twice(q.y - p.y, uy);
        lemma_sum_times(q.x * q.x - p.x * p.x, q.y * q.y - p.y * p.y, d);
    }
    lemma_gather(d, e1, e2);
}

/// The circumcenter is equally far from the three vertices.
pub proof fn lemma_circumcenter_equidistant(a: Point, b: Point, c: Point)
    ensures
        offset_squared(a, b, c, b) == offset_squared(a, b, c, a),
        offset_squared(a, b, c, c) == offset_squared(a, b, c, a),
{
    lemma_circumcenter_on_bisectors(a, b, c);
    lemma_offset_difference(a, b, c, a, b);
    lemma_offset_difference(a, b, c, a, c);
    let d = circum_det(a, b, c);
    assert(d * 0 == 0);
}

/// How large the determinant and the circumcenter numerators can get, with
/// the sizes of the products they are made of.
pub proof fn lemma_circum_bounds(a: Point, b: Point, c: Point)
    requires
        a.valid(),
        b.valid(),
        c.valid(),
    ensures
        -0x300_0000_0000 <= circum_det(a, b, c) <= 0x300_0000_0000,
        -0x1800_0000_0000_0000 <= circum_x(a, b, c) <= 0x1800_0000_0000_0000,
        -0x1800_0000_0000_0000 <= circum_y(a, b, c) <= 0x1800_0000_0000_0000,
        -0x80_0000_0000 <= a.x * (b.y - c.y) <= 0x80_0000_0000,
        -0x80_0000_0000 <= b.x * (c.y - a.y) <= 0x80_0000_0000,
        -0x80_0000_0000 <= c.x * (a.y - b.y) <= 0x80_0000_0000,
        -0x800_0000_0000_0000 <= a.norm_squared() * (b.y - c.y) <= 0x800_0000_0000_0000,
        -0x800_0000_0000_0000 <= b.norm_squared() * (c.y - a.y) <= 0x800_0000_0000_0000,
        -0x800_0000_0000_0000 <= c.norm_squared() * (a.y - b.y) <= 0x800_0000_0000_0000,
        -0x800_0000_0000_0000 <= a.norm_squared() * (c.x - b.x) <= 0x800_0000_0000_0000,
        -0x800_0000_0000_0000 <= b.norm_squared() * (a.x - c.x) <= 0x800_0000_0000_0000,
        -0x800_0000_0000_0000 <= c.norm_squared() * (b.x - a.x) <= 0x800_0000_0000_0000,
{
    lemma_norm_bound(a);
    lemma_norm_bound(b);
    lemma_norm_bound(c);
    lemma_bounded_product(a.x as int, b.y - c.y, 0x8_0000, 0x10_0000);
    lemma_bounded_product(b.x as int, c.y - a.y, 0x8_0000, 0x10_0000);
    lemma_bounded_product(c.x as int, a.y - b.y, 0x8_0000, 0x10_0000);
    lemma_bounded_product(a.norm_squared(), b.y - c.y, 0x80_0000_0000, 0x10_0000);
    lemma_bounded_product(b.norm_squared(), c.y - a.y, 0x80_0000_0000, 0x10_0000);
    lemma_bounded_product(c.norm_squared(), a.y - b.y, 0x80_0000_0000, 0x10_0000);
    lemma_bounded_product(a.norm_squared(), c.x - b.x, 0x80_0000_0000, 0x10_0000);
    lemma_bounded_product(b.norm_squared(), a.x - c.x, 0x80_0000_0000, 0x10_0000);
    lemma_bounded_product(c.norm_squared(), b.x - a.x, 0x80_0000_0000, 0x10_0000);
}

/// How large the scaled offset from the circumcenter to a point in range
/// can get.
pub proof fn lemma_offset_bounds(a: Point, b: Point, c: Point, p: Point)
    requires
        a.valid(),
        b.valid(),
        c.valid(),
        p.valid(),
    ensures
        -0x1800_0000_0000_0000 <= p.x * circum_det(a, b, c) <= 0x1800_0000_0000_0000,
        -0x1800_0000_0000_0000 <= p.y * circum_det(a, b, c) <= 0x1800_0000_0000_0000,
        0 <= (circum_x(a, b, c) - p.x * circum_det(a, b, c)) * (circum_x(a, b, c) - p.x
            * circum_det(a, b, c)) <= 0x900_0000_0000_0000_0000_0000_0000_0000,
        0 <= (circum_y(a, b, c) - p.y * circum_det(a, b, c)) * (circum_y(a, b, c) - p.y
            * circum_det(a, b, c)) <= 0x900_0000_0000_0000_0000_0000_0000_0000,
        0 <= offset_squared(a, b, c, p) <= 0x1200_0000_0000_0000_0000_0000_0000_0000,
        0 <= circum_det(a, b, c) * circum_det(a, b, c) <= 0x9_0000_0000_0000_0000_0000,
{
    lemma_circum_bounds(a, b, c);
    let d = circum_det(a, b, c);
    lemma_bounded_product(p.x as int, d, 0x8_0000, 0x300_0000_0000);
    lemma_bounded_product(p.y as int, d, 0x8_0000, 0x300_0000_0000);
    let dx = circum_x(a, b, c) - p.x * d;
    let dy = circum_y(a, b, c) - p.y * d;
    lemma_bounded_product(dx, dx, 0x3000_0000_0000_0000, 0x3000_0000_0000_0000);
    lemma_bounded_product(dy, dy, 0x3000_0000_0000_0000, 0x3000_0000_0000_0000);
    lemma_bounded_product(d, d, 0x300_0000_0000, 0x300_0000_0000);
    lemma_square_nonnegative(dx);
    lemma_square_nonnegative(dy);
    lemma_square_nonnegative(d);
}

/// The squared norm of a point in range.
pub proof fn lemma_norm_bound(p: Point)
    requires
        p.valid(),
    ensures
        0 <= p.norm_squared() <= 0x80_0000_0000,
{
    lemma_bounded_product(p.x as int, p.x as int, 0x8_0000, 0x8_0000);
    lemma_bounded_product(p.y as int, p.y as int, 0x8_0000, 0x8_0000);
    lemma_square_nonnegative(p.x as int);
    lemma_square_nonnegative(p.y as int);
}

} // verus!
