//! Identities between polynomials, in steps small enough for the solver.

use vstd::prelude::*;

verus! {

/// `p (a + b + c) = p a + p b + p c`.
pub(crate) proof fn lemma_spread(p: int, a: int, b: int, c: int)
    by (nonlinear_arith)
    ensures
        p * (a + b + c) == p * a + p * b + p * c,
{
}

/// `p (n x) = n (p x)`.
pub(crate) proof fn lemma_swap(p: int, n: int, x: int)
    by (nonlinear_arith)
    ensures
        p * (n * x) == n * (p * x),
{
}

/// `n a + n b = n (a + b)`.
pub(crate) proof fn lemma_gather(n: int, a: int, b: int)
    by (nonlinear_arith)
    ensures
        n * a + n * b == n * (a + b),
{
}

/// Two combinations of the same three quantities, added up and sorted by
/// quantity.
pub(crate) proof fn lemma_regroup(
    p: int,
    q: int,
    na: int,
    nb: int,
    nc: int,
    x1: int,
    x2: int,
    x3: int,
    y1: int,
    y2: int,
    y3: int,
)
    ensures
        p * (na * x1 + nb * x2 + nc * x3) + q * (na * y1 + nb * y2 + nc * y3) == na * (p * x1 + q
            * y1) + nb * (p * x2 + q * y2) + nc * (p * x3 + q * y3),
{
    lemma_spread(p, na * x1, nb * x2, nc * x3);
    lemma_spread(q, na * y1, nb * y2, nc * y3);
    lemma_swap(p, na, x1);
    lemma_swap(p, nb, x2);
    lemma_swap(p, nc, x3);
    lemma_swap(q, na, y1);
    lemma_swap(q, nb, y2);
    lemma_swap(q, nc, y3);
    lemma_gather(na, p * x1, q * y1);
    lemma_gather(nb, p * x2, q * y2);
    lemma_gather(nc, p * x3, q * y3);
}

/// `(u - x)^2 - (u - y)^2 = (y - x) (2 u - x - y)`.
proof fn lemma_difference_of_squares(u: int, x: int, y: int)
    by (nonlinear_arith)
    ensures
        (u - x) * (u - x) - (u - y) * (u - y) == (y - x) * (2 * u - x - y),
{
}

/// A common factor of a difference and of a sum, and the product of a sum
/// and a difference.
proof fn lemma_times_difference(a: int, b: int, d: int)
    by (nonlinear_arith)
    ensures
        b * d - a * d == (b - a) * d,
        a * d + b * d == (a + b) * d,
        (b - a) * (a + b) == b * b - a * a,
{
}

/// `(w d) (2 u - v d) = d (w 2 u - (w v) d)`.
proof fn lemma_pull_factor(w: int, d: int, u: int, v: int)
    by (nonlinear_arith)
    ensures
        (w * d) * (2 * u - v * d) == d * (w * (2 * u) - (w * v) * d),
{
}

/// `(u - a d)^2 - (u - b d)^2 = d ((b - a) 2 u - (b^2 - a^2) d)`.
pub(crate) proof fn lemma_difference_of_offsets(u: int, a: int, b: int, d: int)
    ensures
        (u - a * d) * (u - a * d) - (u - b * d) * (u - b * d) == d * ((b - a) * (2 * u) - (b * b
            - a * a) * d),
{
    lemma_difference_of_squares(u, a * d, b * d);
    lemma_times_difference(a, b, d);
    lemma_pull_factor(b - a, d, u, a + b);
}

/// `(a - b) (c - d) = a c - a d - b c + b d`.
pub(crate) proof fn lemma_expand(a: int, b: int, c: int, d: int)
    by (nonlinear_arith)
    ensures
        (a - b) * (c - d) == a * c - a * d - b * c + b * d,
{
}

/// `a (c - d) = a c - a d`, and a product does not depend on the order of
/// its factors.
pub(crate) proof fn lemma_expand_one(a: int, c: int, d: int)
    by (nonlinear_arith)
    ensures
        a * (c - d) == a * c - a * d,
        a * c == c * a,
        a * d == d * a,
{
}

/// The cross products of the sides of a triangle, which all are its
/// doubled area up to sign.
pub(crate) proof fn lemma_cross_products(ax: int, ay: int, bx: int, by: int, cx: int, cy: int)
    ensures
        ({
            let h = ax * (by - cy) + bx * (cy - ay) + cx * (ay - by);
            &&& (bx - ax) * (by - cy) + (by - ay) * (cx - bx) == -h
            &&& (bx - ax) * (cy - ay) + (by - ay) * (ax - cx) == h
            &&& (bx - ax) * (ay - by) + (by - ay) * (bx - ax) == 0
            &&& (cx - ax) * (by - cy) + (cy - ay) * (cx - bx) == -h
            &&& (cx - ax) * (cy - ay) + (cy - ay) * (ax - cx) == 0
            &&& (cx - ax) * (ay - by) + (cy - ay) * (bx - ax) == h
        }),
{
    lemma_expand_one(ax, by, cy);
    lemma_expand_one(bx, cy, ay);
    lemma_expand_one(cx, ay, by);
    lemma_expand_one(bx, by, ay);
    lemma_expand_one(cx, cy, by);
    lemma_expand_one(ax, ay, by);
    lemma_expand_one(cx, cy, ay);
    lemma_expand(bx, ax, by, cy);
    lemma_expand(by, ay, cx, bx);
    lemma_expand(bx, ax, cy, ay);
    lemma_expand(by, ay, ax, cx);
    lemma_expand(bx, ax, ay, by);
    lemma_expand(by, ay, bx, ax);
    lemma_expand(cx, ax, by, cy);
    lemma_expand(cy, ay, cx, bx);
    lemma_expand(cx, ax, cy, ay);
    lemma_expand(cy, ay, ax, cx);
    lemma_expand(cx, ax, ay, by);
    lemma_expand(cy, ay, bx, ax);
}

/// Lagrange's identity in the plane: the squared lengths of two vectors
/// multiply to the square of their inner product plus the square of their
/// cross product.
pub(crate) proof fn lemma_lagrange(v1: int, v2: int, w1: int, w2: int)
    ensures
        (v1 * v1 + v2 * v2) * (w1 * w1 + w2 * w2) == (v1 * w1 + v2 * w2) * (v1 * w1 + v2 * w2) + (
        v1 * w2 - v2 * w1) * (v1 * w2 - v2 * w1),
{
    let a = v1 * w1;
    let b = v2 * w2;
    let c = v1 * w2;
    let d = v2 * w1;
    lemma_binomials(a, b, c, d);
    lemma_product_of_sums(v1 * v1, v2 * v2, w1 * w1, w2 * w2);
    lemma_square_of_product(v1, w1);
    lemma_square_of_product(v2, w2);
    lemma_square_of_product(v1, w2);
    lemma_square_of_product(v2, w1);
    lemma_cross_terms(v1, v2, w1, w2);
}

/// `(a + b)^2 + (c - d)^2` written out.
proof fn lemma_binomials(a: int, b: int, c: int, d: int)
    by (nonlinear_arith)
    ensures
        (a + b) * (a + b) + (c - d) * (c - d) == a * a + b * b + c * c + d * d + 2 * (a * b) - 2
            * (c * d),
{
}

/// `(a + b) (c + d)` written out.
proof fn lemma_product_of_sums(a: int, b: int, c: int, d: int)
    by (nonlinear_arith)
    ensures
        (a + b) * (c + d) == a * c + b * d + a * d + b * c,
{
}

/// `(p q)^2 = p^2 q^2`.
pub(crate) proof fn lemma_square_of_product(p: int, q: int)
    by (nonlinear_arith)
    ensures
        (p * q) * (p * q) == (p * p) * (q * q),
{
}

/// `(v1 w1) (v2 w2) = (v1 w2) (v2 w1)`.
proof fn lemma_cross_terms(v1: int, v2: int, w1: int, w2: int)
    by (nonlinear_arith)
    ensures
        (v1 * w1) * (v2 * w2) == (v1 * w2) * (v2 * w1),
{
}

/// `(p + q)^2 = p^2 + q^2 + 2 p q`.
pub(crate) proof fn lemma_square_of_sum(p: int, q: int)
    by (nonlinear_arith)
    ensures
        (p + q) * (p + q) == p * p + q * q + 2 * (p * q),
{
}

/// A number and its opposite have the same square.
pub(crate) proof fn lemma_square_of_opposite(w: int)
    by (nonlinear_arith)
    ensures
        (-w) * (-w) == w * w,
{
}

/// The sign of a product follows the signs of its factors.
pub(crate) proof fn lemma_opposite_product(p: int, q: int)
    by (nonlinear_arith)
    ensures
        (-p) * q == -(p * q),
        p * (-q) == -(p * q),
        (-p) * (-q) == p * q,
{
}

/// The product of two bounded integers is bounded by the product of the
/// bounds.
pub(crate) proof fn lemma_bounded_product(a: int, b: int, ma: int, mb: int)
    by (nonlinear_arith)
    requires
        -ma <= a <= ma,
        -mb <= b <= mb,
    ensures
        -(ma * mb) <= a * b <= ma * mb,
{
}

/// A square is not negative.
pub(crate) proof fn lemma_square_nonnegative(a: int)
    by (nonlinear_arith)
    ensures
        a * a >= 0,
{
}

/// The square of an even number that is not zero is four or more.
pub(crate) proof fn lemma_even_square(h: int)
    by (nonlinear_arith)
    requires
        h != 0,
    ensures
        (2 * h) * (2 * h) >= 4,
{
}

/// The parallelogram law, as an inequality: `(x1 - x2)^2 <= 2 x1^2 + 2 x2^2`.
pub(crate) proof fn lemma_parallelogram(x1: int, x2: int)
    by (nonlinear_arith)
    ensures
        (x1 - x2) * (x1 - x2) <= 2 * (x1 * x1) + 2 * (x2 * x2),
{
}

/// `(u - a d) - (u - b d) = (b - a) d`.
pub(crate) proof fn lemma_scaled_step(u: int, a: int, b: int, d: int)
    by (nonlinear_arith)
    ensures
        (u - a * d) - (u - b * d) == (b - a) * d,
{
}

/// `a m + b m = (a + b) m`.
pub(crate) proof fn lemma_sum_times(a: int, b: int, m: int)
    by (nonlinear_arith)
    ensures
        a * m + b * m == (a + b) * m,
{
}

/// A lattice vector of squared length one or less is zero or a unit step
/// along one axis.
pub(crate) proof fn lemma_unit_steps(v1: int, v2: int)
    by (nonlinear_arith)
    requires
        v1 * v1 + v2 * v2 <= 1,
    ensures
        -1 <= v1 <= 1,
        -1 <= v2 <= 1,
        v1 == 0 || v2 == 0,
{
}

/// `w (2 u) = 2 (w u)`.
pub(crate) proof fn lemma_twice(w: int, u: int)
    by (nonlinear_arith)
    ensures
        w * (2 * u) == 2 * (w * u),
{
}

} // verus!
