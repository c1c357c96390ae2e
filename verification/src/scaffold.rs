//! The scaffold: a triangle around the bounding box of the points, so large
//! that all of them lie inside it and inside its circumcircle, none on the
//! border.

use vstd::prelude::*;
use crate::algebra::{lemma_gather, lemma_swap};
use crate::bounding_box::{bounding_box_of, BoundingBox};
use crate::point::Point;
use crate::triangle::{
    circum_det, circum_x, circum_y, lemma_circumcenter_on_bisectors, lemma_offset_difference,
    offset_squared, orientation, Triangle,
};
use crate::unique::strictly_increasing;

verus! {

/// Largest magnitude of a coordinate of a point to be triangulated. The
/// scaffold reaches seven times as far as the points, and its vertices must
/// stay within `COORD_LIMIT`.
pub const INPUT_LIMIT: i64 = 65536;

/// Both coordinates lie within `INPUT_LIMIT` of zero.
pub open spec fn in_input_range(p: Point) -> bool {
    &&& -INPUT_LIMIT <= p.x <= INPUT_LIMIT
    &&& -INPUT_LIMIT <= p.y <= INPUT_LIMIT
}

/// Every point of the sequence is within `INPUT_LIMIT`.
pub open spec fn all_in_input_range(s: Seq<Point>) -> bool {
    forall|i: int| 0 <= i < s.len() ==> in_input_range(#[trigger] s[i])
}

/// Three times the longer side of the box.
pub open spec fn scaffold_size(bb: BoundingBox) -> int {
    3 * if bb.width() >= bb.height() {
        bb.width()
    } else {
        bb.height()
    }
}

/// `0.866 d` rounded to the nearest integer.
pub open spec fn scaffold_half_width(d: int) -> int {
    (866 * d + 500) / 1000
}

/// `0.5 d` rounded to the nearest integer, a half going up.
pub open spec fn scaffold_depth(d: int) -> int {
    (d + 1) / 2
}

/// The scaffold around a box: with `d` three times the longer side of the
/// box and `(cx, cy)` its center, the triangle on `(cx - 0.866 d, cy - 0.5 d)`,
/// `(cx + 0.866 d, cy - 0.5 d)` and `(cx, cy + d)`, each offset rounded to
/// the lattice. There is none around a box of a single point.
pub open spec fn scaffold_of(bb: BoundingBox) -> Option<Triangle> {
    let d = scaffold_size(bb);
    let cx = bb.lower.x + bb.width() / 2;
    let cy = bb.lower.y + bb.height() / 2;
    let s = scaffold_half_width(d);
    let t = scaffold_depth(d);
    Triangle::spec_new(
        Point { x: (cx - s) as i64, y: (cy - t) as i64 },
        Point { x: (cx + s) as i64, y: (cy - t) as i64 },
        Point { x: cx as i64, y: (cy + d) as i64 },
    )
}

/// A box within the input range that is not a single point has a scaffold.
pub proof fn lemma_scaffold_exists(bb: BoundingBox)
    requires
        in_input_range(bb.lower),
        in_input_range(bb.upper),
        bb.lower.x <= bb.upper.x,
        bb.lower.y <= bb.upper.y,
        bb.lower != bb.upper,
    ensures
        scaffold_of(bb) is Some,
{
    lemma_scaffold_encloses(bb, bb.lower);
}

/// Two or more distinct points within the input range span a box that has a
/// scaffold.
pub proof fn lemma_distinct_points_have_scaffold(u: Seq<Point>)
    requires
        strictly_increasing(u),
        u.len() >= 2,
        all_in_input_range(u),
    ensures
        scaffold_of(bounding_box_of(u)) is Some,
{
    let bb = bounding_box_of(u);
    crate::bounding_box::lemma_bounding_box_is_tight(u);
    assert(bb.holds(u[0]) && bb.holds(u[1]));
    assert(u[0].precedes(u[1]));
    let i0 = choose|i: int| 0 <= i < u.len() && (#[trigger] u[i]).x == bb.lower.x;
    let i1 = choose|i: int| 0 <= i < u.len() && (#[trigger] u[i]).y == bb.lower.y;
    let i2 = choose|i: int| 0 <= i < u.len() && (#[trigger] u[i]).x == bb.upper.x;
    let i3 = choose|i: int| 0 <= i < u.len() && (#[trigger] u[i]).y == bb.upper.y;
    assert(in_input_range(u[i0]) && in_input_range(u[i1]) && in_input_range(u[i2])
        && in_input_range(u[i3]));
    lemma_scaffold_exists(bb);
}


/// From `4 s u = D (4 c s)` with `s > 0` follows `u = D c`.
proof fn lemma_cancel(s: int, u: int, dd: int, c: int)
    by (nonlinear_arith)
    requires
        s > 0,
        2 * ((2 * s) * u) == dd * (4 * (c * s)),
    ensures
        u == dd * c,
{
}

/// `(c - s)^2 - (c + x)^2 = s^2 - x^2 - 2 c (s + x)`.
proof fn lemma_gap_of_squares(c: int, s: int, x: int)
    by (nonlinear_arith)
    ensures
        (c - s) * (c - s) - (c + x) * (c + x) == s * s - x * x - 2 * (c * (s + x)),
{
}

/// `(c + d)^2 - (c - t)^2 = 2 c (d + t) + d^2 - t^2`.
proof fn lemma_gap_of_squares_up(c: int, d: int, t: int)
    by (nonlinear_arith)
    ensures
        (c + d) * (c + d) - (c - t) * (c - t) == 2 * (c * (d + t)) + (d * d - t * t),
{
}

/// `c^2 - (c - s)^2 = 2 c s - s^2` and `(c + s)^2 - (c - s)^2 = 4 c s`.
proof fn lemma_gap_of_square(c: int, s: int)
    by (nonlinear_arith)
    ensures
        c * c - (c - s) * (c - s) == 2 * (c * s) - s * s,
        (c + s) * (c + s) - (c - s) * (c - s) == 4 * (c * s),
{
}

/// How much farther from the origin the second vertex of the scaffold is
/// than the first.
proof fn lemma_norm_gap_ab(cx: int, cy: int, s: int, t: int)
    ensures
        ((cx + s) * (cx + s) + (cy - t) * (cy - t)) - ((cx - s) * (cx - s) + (cy - t) * (cy - t))
            == 4 * (cx * s),
{
    lemma_gap_of_square(cx, s);
}

/// How much farther from the origin the third vertex of the scaffold is
/// than the first.
proof fn lemma_norm_gap_ac(cx: int, cy: int, s: int, t: int, d0: int)
    ensures
        (cx * cx + (cy + d0) * (cy + d0)) - ((cx - s) * (cx - s) + (cy - t) * (cy - t)) == 2 * (cx
            * s) + 2 * (cy * (d0 + t)) + (d0 * d0 - s * s - t * t),
{
    lemma_gap_of_square(cx, s);
    lemma_gap_of_squares_up(cy, d0, t);
}

/// How much farther from the origin the first vertex of the scaffold is
/// than the point at `(x, y)` from the center.
proof fn lemma_norm_gap_ap(cx: int, cy: int, s: int, t: int, x: int, y: int)
    ensures
        ((cx - s) * (cx - s) + (cy - t) * (cy - t)) - ((cx + x) * (cx + x) + (cy + y) * (cy + y))
            == (s * s + t * t - x * x - y * y) - 2 * (cx * (s + x)) - 2 * (cy * (t + y)),
{
    lemma_gap_of_squares(cx, s, x);
    lemma_gap_of_squares(cy, t, y);
}

/// `dd (2 a + 2 b + e) = 2 a dd + 2 b dd + dd e`.
proof fn lemma_times_spread(dd: int, a: int, b: int, e: int)
    by (nonlinear_arith)
    ensures
        dd * (2 * a + 2 * b + e) == 2 * (a * dd) + 2 * (b * dd) + dd * e,
{
}

/// What the second bisector says of the height of the circumcenter, once
/// the first has given its `x`.
proof fn lemma_second_bisector(s: int, k: int, dd: int, cx: int, cy: int, e: int, ux: int, uy: int)
    requires
        ux == dd * cx,
        2 * (s * ux + k * uy) == dd * (2 * (cx * s) + 2 * (cy * k) + e),
    ensures
        2 * (k * (uy - dd * cy)) == dd * e,
{
    lemma_times_product(s, dd, cx);
    lemma_times_spread(dd, cx * s, cy * k, e);
    lemma_times_difference(k, uy, dd, cy);
}

/// `(r - 2 a - 2 b) dd = r dd - 2 a dd - 2 b dd`.
proof fn lemma_times_sum(r: int, a: int, b: int, dd: int)
    by (nonlinear_arith)
    ensures
        (r - 2 * a - 2 * b) * dd == r * dd - 2 * (a * dd) - 2 * (b * dd),
{
}

/// `ty (uy - dd cy) = ty uy - (cy ty) dd`.
proof fn lemma_times_difference(ty: int, uy: int, dd: int, cy: int)
    by (nonlinear_arith)
    ensures
        ty * (uy - dd * cy) == ty * uy - (cy * ty) * dd,
{
}

/// `sx (dd cx) = (cx sx) dd`.
proof fn lemma_times_product(sx: int, dd: int, cx: int)
    by (nonlinear_arith)
    ensures
        sx * (dd * cx) == (cx * sx) * dd,
{
}

/// `(-a) b = -(a b)` and `a b = b a`.
proof fn lemma_times_negative(a: int, b: int)
    by (nonlinear_arith)
    ensures
        (-a) * b == -(a * b),
        a * b == b * a,
{
}

/// The difference of the squared distances of `p` and of the first vertex
/// from the circumcenter, in terms of the height of the circumcenter.
proof fn lemma_gap_value(
    dd: int,
    cx: int,
    cy: int,
    sx: int,
    ty: int,
    ux: int,
    uy: int,
    r: int,
)
    requires
        ux == dd * cx,
    ensures
        2 * ((-sx) * ux + (-ty) * uy) - (r - 2 * (cx * sx) - 2 * (cy * ty)) * dd == -(2 * (ty * (uy
            - dd * cy))) - dd * r,
{
    lemma_times_negative(sx, ux);
    lemma_times_negative(ty, uy);
    lemma_times_sum(r, cx * sx, cy * ty, dd);
    lemma_times_product(sx, dd, cx);
    lemma_times_difference(ty, uy, dd, cy);
    lemma_times_negative(dd, r);
}

/// Squaring keeps the order of numbers that are not negative.
proof fn lemma_square_le(a: int, b: int)
    by (nonlinear_arith)
    requires
        0 <= a <= b,
    ensures
        a * a <= b * b,
{
}

/// A number bounded in magnitude has a bounded square.
proof fn lemma_square_abs_le(a: int, b: int)
    by (nonlinear_arith)
    requires
        -b <= a <= b,
    ensures
        a * a <= b * b,
{
}

/// With `k g = -D (ty e + k r)`, where `r` and `e + r` are positive and
/// `ty` lies between zero and `k`, `g` is negative.
proof fn lemma_gap_negative(k: int, g: int, ty: int, v: int, dd: int, e: int, r: int)
    requires
        k > 0,
        dd > 0,
        0 <= ty <= k,
        r > 0,
        e + r > 0,
        g == -(2 * (ty * v)) - dd * r,
        2 * (k * v) == dd * e,
    ensures
        g < 0,
{
    assert(k * g == -(ty * (2 * (k * v))) - k * (dd * r)) by (nonlinear_arith)
        requires
            g == -(2 * (ty * v)) - dd * r,
    ;
    assert(ty * e + k * r > 0) by (nonlinear_arith)
        requires
            k > 0,
            0 <= ty <= k,
            r > 0,
            e + r > 0,
    ;
    lemma_swap(ty, dd, e);
    lemma_swap(k, dd, r);
    lemma_gather(dd, ty * e, k * r);
    assert(dd * (ty * e + k * r) > 0) by (nonlinear_arith)
        requires
            dd > 0,
            ty * e + k * r > 0,
    ;
    assert(k * g < 0);
    assert(g < 0) by (nonlinear_arith)
        requires
            k > 0,
            k * g < 0,
    ;
}

/// Every point of a box lies strictly inside the circumcircle of the
/// scaffold around the box.
pub proof fn lemma_scaffold_encloses(bb: BoundingBox, p: Point)
    requires
        in_input_range(bb.lower),
        in_input_range(bb.upper),
        bb.lower.x <= bb.upper.x,
        bb.lower.y <= bb.upper.y,
        bb.lower != bb.upper,
        bb.holds(p),
    ensures
        scaffold_of(bb) matches Some(t) && t.strictly_encloses(p),
{
    let m = if bb.width() >= bb.height() {
        bb.width()
    } else {
        bb.height()
    };
    let d0 = scaffold_size(bb);
    let cx = bb.lower.x + bb.width() / 2;
    let cy = bb.lower.y + bb.height() / 2;
    let s = scaffold_half_width(d0);
    let t = scaffold_depth(d0);
    let k = d0 + t;
    assert(m >= 1 && d0 == 3 * m);
    assert(2 * m <= s <= d0);
    assert(m <= t <= d0);
    let a = Point { x: (cx - s) as i64, y: (cy - t) as i64 };
    let b = Point { x: (cx + s) as i64, y: (cy - t) as i64 };
    let c = Point { x: cx as i64, y: (cy + d0) as i64 };
    let dd = circum_det(a, b, c);
    let ux = circum_x(a, b, c);
    let uy = circum_y(a, b, c);
    assert(dd == 4 * (s * k)) by (nonlinear_arith)
        requires
            dd == 2 * (a.x * (b.y - c.y) + b.x * (c.y - a.y) + c.x * (a.y - b.y)),
            a.x == cx - s,
            a.y == cy - t,
            b.x == cx + s,
            b.y == cy - t,
            c.x == cx,
            c.y == cy + d0,
            k == d0 + t,
    ;
    assert(s * k > 0) by (nonlinear_arith)
        requires
            s >= 2,
            k >= 4,
    ;
    lemma_circumcenter_on_bisectors(a, b, c);
    // The circumcenter has the x of the center of the box.
    lemma_norm_gap_ab(cx, cy, s, t);
    assert((b.y - a.y) * uy == 0) by (nonlinear_arith)
        requires
            b.y - a.y == 0,
    ;
    assert(b.x - a.x == 2 * s);
    lemma_cancel(s, ux, dd, cx);
    // Its y lies above the center by `dd * e / (2 k)`.
    let e = d0 * d0 - s * s - t * t;
    lemma_norm_gap_ac(cx, cy, s, t, d0);
    assert(c.x - a.x == s && c.y - a.y == k);
    lemma_second_bisector(s, k, dd, cx, cy, e, ux, uy);
    let v = uy - dd * cy;
    // How `p` compares with the vertex `a`.
    let x = p.x - cx;
    let y = p.y - cy;
    let r = s * s + t * t - x * x - y * y;
    lemma_offset_difference(a, b, c, p, a);
    lemma_norm_gap_ap(cx, cy, s, t, x, y);
    assert(a.x - p.x == -(s + x) && a.y - p.y == -(t + y));
    lemma_gap_value(dd, cx, cy, s + x, t + y, ux, uy, r);
    let g = 2 * ((a.x - p.x) * ux + (a.y - p.y) * uy) - (a.norm_squared() - p.norm_squared()) * dd;
    assert(g == -(2 * ((t + y) * v)) - dd * r);
    // Sizes.
    assert(-m <= x <= m && -m <= y <= m);
    lemma_square_abs_le(x, m);
    lemma_square_abs_le(y, m);
    lemma_square_le(2 * m, s);
    lemma_square_le(m, t);
    assert((2 * m) * (2 * m) == 4 * (m * m)) by (nonlinear_arith);
    assert(m * m >= 1) by (nonlinear_arith)
        requires
            m >= 1,
    ;
    assert(r > 0);
    assert(d0 * d0 == 9 * (m * m)) by (nonlinear_arith)
        requires
            d0 == 3 * m,
    ;
    assert(e + r == d0 * d0 - x * x - y * y);
    lemma_gap_negative(k, g, t + y, v, dd, e, r);
    assert(dd * g < 0) by (nonlinear_arith)
        requires
            dd > 0,
            g < 0,
    ;
}

/// The orientation of a point at `(x, y)` from the center with respect to
/// the three sides of the scaffold.
proof fn lemma_scaffold_sides(cx: int, cy: int, s: int, t: int, d: int, x: int, y: int)
    by (nonlinear_arith)
    ensures
        ((cx + s) - (cx - s)) * ((cy + y) - (cy - t)) - ((cy - t) - (cy - t)) * ((cx + x) - (cx
            - s)) == 2 * (s * (y + t)),
        (cx - (cx + s)) * ((cy + y) - (cy - t)) - ((cy + d) - (cy - t)) * ((cx + x) - (cx + s))
            == s * (d - y) - (d + t) * x,
        ((cx - s) - cx) * ((cy + y) - (cy + d)) - ((cy - t) - (cy + d)) * ((cx + x) - cx) == s * (d
            - y) + (d + t) * x,
{
}

/// A product of two numbers that are at least `a`, which is not negative,
/// is at least the square of `a`.
proof fn lemma_product_at_least(u: int, v: int, a: int)
    by (nonlinear_arith)
    requires
        0 <= a <= u,
        a <= v,
    ensures
        a * a <= u * v,
{
}

/// A product of two numbers between zero and their bounds is at most the
/// product of the bounds.
proof fn lemma_product_at_most(u: int, v: int, b: int, c: int)
    by (nonlinear_arith)
    requires
        0 <= u <= b,
        0 <= v <= c,
    ensures
        u * v <= b * c,
{
}

/// `(5 m - 1)^2 - (9 m + 1) (m + 1) = 16 m^2 - 20 m`, which is positive
/// from two on.
proof fn lemma_room_on_the_sides(m: int)
    by (nonlinear_arith)
    requires
        m >= 2,
    ensures
        (5 * m - 1) * (5 * m - 1) > (9 * m + 1) * (m + 1),
{
}

/// `(2 s) (2 h) = 4 (s h)`.
proof fn lemma_doubled_product(s: int, h: int)
    by (nonlinear_arith)
    ensures
        (2 * s) * (2 * h) == 4 * (s * h),
{
}

/// The slanted sides of the scaffold leave room for a point `xa` to the
/// side of the center and `y` above it.
proof fn lemma_slanted_side(m: int, s: int, t: int, d: int, xa: int, y: int)
    requires
        m >= 1,
        d == 3 * m,
        s == scaffold_half_width(d),
        t == scaffold_depth(d),
        0 <= 2 * xa <= m + 1,
        2 * y <= m + 1,
        m == 1 ==> xa <= 1 && y <= 1,
    ensures
        s * (d - y) > (d + t) * xa,
{
    if m == 1 {
        assert(s == 3 && t == 2 && d == 3);
        assert(s * (d - y) == 3 * (3 - y)) by (nonlinear_arith)
            requires
                s == 3,
                d == 3,
        ;
        assert((d + t) * xa == 5 * xa) by (nonlinear_arith)
            requires
                d == 3,
                t == 2,
        ;
    } else {
        let a = 5 * m - 1;
        assert(2 * s >= a);
        assert(2 * (d - y) >= a);
        lemma_product_at_least(2 * s, 2 * (d - y), a);
        lemma_doubled_product(s, d - y);
        assert(2 * (d + t) <= 9 * m + 1);
        lemma_product_at_most(2 * (d + t), 2 * xa, 9 * m + 1, m + 1);
        lemma_doubled_product(d + t, xa);
        lemma_room_on_the_sides(m);
    }
}

/// Every point of a box lies strictly inside the scaffold around the box.
pub proof fn lemma_scaffold_contains(bb: BoundingBox, p: Point)
    requires
        in_input_range(bb.lower),
        in_input_range(bb.upper),
        bb.lower.x <= bb.upper.x,
        bb.lower.y <= bb.upper.y,
        bb.lower != bb.upper,
        bb.holds(p),
    ensures
        scaffold_of(bb) matches Some(t) && t.strictly_contains(p),
{
    lemma_scaffold_exists(bb);
    let m = if bb.width() >= bb.height() {
        bb.width()
    } else {
        bb.height()
    };
    let d = scaffold_size(bb);
    let cx = bb.lower.x + bb.width() / 2;
    let cy = bb.lower.y + bb.height() / 2;
    let s = scaffold_half_width(d);
    let t = scaffold_depth(d);
    let a = Point { x: (cx - s) as i64, y: (cy - t) as i64 };
    let b = Point { x: (cx + s) as i64, y: (cy - t) as i64 };
    let c = Point { x: cx as i64, y: (cy + d) as i64 };
    let x = p.x - cx;
    let y = p.y - cy;
    assert(m >= 1 && d == 3 * m);
    assert(2 * m <= s <= d);
    assert(m <= t <= d);
    lemma_scaffold_sides(cx, cy, s, t, d, x, y);
    assert(orientation(a, b, p) == 2 * (s * (y + t)));
    assert(orientation(b, c, p) == s * (d - y) - (d + t) * x);
    assert(orientation(c, a, p) == s * (d - y) + (d + t) * x);
    assert(s * (y + t) > 0) by (nonlinear_arith)
        requires
            s >= 2,
            y + t >= 1,
    ;
    let xa = if x >= 0 {
        x
    } else {
        -x
    };
    lemma_slanted_side(m, s, t, d, xa, y);
    assert((d + t) * x <= (d + t) * xa && -((d + t) * x) <= (d + t) * xa) by (nonlinear_arith)
        requires
            d + t >= 0,
            xa >= x,
            xa >= -x,
    ;
}

} // verus!
