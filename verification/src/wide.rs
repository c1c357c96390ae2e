//! Products of two 128-bit numbers, kept as two 128-bit halves, and their
//! comparison.

use vstd::prelude::*;

verus! {

/// The weight of the high limb of a 128-bit number: two to the power 64.
pub const LIMB: u128 = 0x1_0000_0000_0000_0000;

/// The value that the two halves `hi` and `lo` stand for.
pub open spec fn wide_value(hi: u128, lo: u128) -> int {
    hi * 0x1_0000_0000_0000_0000_0000_0000_0000_0000 + lo
}

/// The product of `a` and `b` as a high half and a low half.
pub fn mul_wide(a: u128, b: u128) -> (r: (u128, u128))
    ensures
        wide_value(r.0, r.1) == a * b,
{
    let a1: u128 = a / LIMB;
    let a0: u128 = a % LIMB;
    let b1: u128 = b / LIMB;
    let b0: u128 = b % LIMB;
    proof {
        lemma_limb_product(a0 as int, b0 as int);
        lemma_limb_product(a1 as int, b0 as int);
        lemma_limb_product(a0 as int, b1 as int);
        lemma_limb_product(a1 as int, b1 as int);
    }
    let x0: u128 = a0 * b0;
    let x1: u128 = a1 * b0;
    let x2: u128 = a0 * b1;
    let x3: u128 = a1 * b1;
    let carry: u128 = x0 / LIMB + x1 % LIMB + x2 % LIMB;
    let lo: u128 = x0 % LIMB + (carry % LIMB) * LIMB;
    let hi: u128 = x3 + x1 / LIMB + x2 / LIMB + carry / LIMB;
    proof {
        lemma_limbs_multiply(a1 as int, a0 as int, b1 as int, b0 as int);
        assert(a * b == x3 * 0x1_0000_0000_0000_0000_0000_0000_0000_0000 + (x1 + x2) * LIMB + x0);
    }
    (hi, lo)
}

/// Whether `a * b <= c * d`, decided without overflow.
pub fn product_le(a: u128, b: u128, c: u128, d: u128) -> (r: bool)
    ensures
        r == (a * b <= c * d),
{
    let (h1, l1) = mul_wide(a, b);
    let (h2, l2) = mul_wide(c, d);
    h1 < h2 || (h1 == h2 && l1 <= l2)
}

/// The product of two numbers below `LIMB` is at most the square of
/// `LIMB - 1`.
proof fn lemma_limb_product(x: int, y: int)
    by (nonlinear_arith)
    requires
        0 <= x < 0x1_0000_0000_0000_0000,
        0 <= y < 0x1_0000_0000_0000_0000,
    ensures
        0 <= x * y <= 0xffff_ffff_ffff_fffe_0000_0000_0000_0001,
{
}

/// The product of two numbers in terms of their limbs.
proof fn lemma_limbs_multiply(a1: int, a0: int, b1: int, b0: int)
    by (nonlinear_arith)
    ensures
        (a1 * 0x1_0000_0000_0000_0000 + a0) * (b1 * 0x1_0000_0000_0000_0000 + b0) == (a1 * b1)
            * 0x1_0000_0000_0000_0000_0000_0000_0000_0000 + (a1 * b0 + a0 * b1)
            * 0x1_0000_0000_0000_0000 + a0 * b0,
{
}

} // verus!
