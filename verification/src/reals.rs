//! Real numbers for saying what a fixed-point number stands for: powers of
//! two with any integer exponent, and a few facts about products.

use vstd::arithmetic::power2::{lemma2_to64, lemma_pow2_unfold, pow2};
use vstd::prelude::*;

verus! {

/// `2^e` as a real number, for any integer `e`.
pub open spec fn pow2_real(e: int) -> real
    decreases (if e >= 0 { e } else { -e }),
{
    if e == 0 {
        1real
    } else if e > 0 {
        2real * pow2_real(e - 1)
    } else {
        pow2_real(e + 1) / 2real
    }
}

/// Each power of two is twice the one before it.
pub proof fn lemma_pow2_real_succ(e: int)
    ensures
        pow2_real(e + 1) == 2real * pow2_real(e),
{
}

/// Powers of two are positive.
pub proof fn lemma_pow2_real_pos(e: int)
    ensures
        pow2_real(e) > 0real,
    decreases (if e >= 0 { e } else { -e }),
{
    if e > 0 {
        lemma_pow2_real_pos(e - 1);
    } else if e < 0 {
        lemma_pow2_real_pos(e + 1);
    }
}

/// The power of a sum is the product of the powers.
pub proof fn lemma_pow2_real_adds(a: int, b: int)
    ensures
        pow2_real(a + b) == pow2_real(a) * pow2_real(b),
    decreases (if b >= 0 { b } else { -b }),
{
    let x = pow2_real(a);
    if b == 0 {
        assert(x * 1real == x);
    } else if b > 0 {
        lemma_pow2_real_adds(a, b - 1);
        lemma_pow2_real_succ(a + b - 1);
        lemma_pow2_real_succ(b - 1);
        let y = pow2_real(b - 1);
        assert(2real * (x * y) == x * (2real * y)) by (nonlinear_arith);
    } else {
        lemma_pow2_real_adds(a, b + 1);
        lemma_pow2_real_succ(a + b);
        lemma_pow2_real_succ(b);
        let y = pow2_real(b);
        assert(2real * (x * y) == x * (2real * y)) by (nonlinear_arith);
    }
}

/// Where the exponent is a natural number, the real power is the whole one.
pub proof fn lemma_pow2_real_nat(n: nat)
    ensures
        pow2_real(n as int) == pow2(n) as real,
    decreases n,
{
    lemma2_to64();
    if n > 0 {
        lemma_pow2_real_nat((n - 1) as nat);
        lemma_pow2_unfold(n);
    }
}

/// A power of two and the power of the opposite exponent multiply to one.
pub proof fn lemma_pow2_real_inverse(e: int)
    ensures
        pow2_real(e) * pow2_real(-e) == 1real,
{
    lemma_pow2_real_adds(e, -e);
}

/// `(a * b) * (q * q) == (a * q) * (b * q)`.
pub proof fn lemma_real_mul_pair(a: real, b: real, q: real)
    ensures
        (a * b) * (q * q) == (a * q) * (b * q),
{
    assert((a * b) * (q * q) == (a * q) * (b * q)) by (nonlinear_arith);
}

/// Multiplying by a number that is not negative keeps an order.
pub proof fn lemma_real_mul_le(lo: real, hi: real, k: real)
    requires
        lo <= hi,
        k >= 0real,
    ensures
        lo * k <= hi * k,
{
    assert(lo * k <= hi * k) by (nonlinear_arith)
        requires
            lo <= hi,
            k >= 0real,
    ;
}

/// Multiplication distributes over a sum and a difference.
pub proof fn lemma_real_mul_distributes(a: real, b: real, k: real)
    ensures
        (a + b) * k == a * k + b * k,
        (a - b) * k == a * k - b * k,
{
    assert((a + b) * k == a * k + b * k) by (nonlinear_arith);
    assert((a - b) * k == a * k - b * k) by (nonlinear_arith);
}

/// A number between `-b` and `b` has a square of at most `b * b`.
pub proof fn lemma_real_square_le(a: real, b: real)
    requires
        -b <= a <= b,
    ensures
        0real <= a * a <= b * b,
{
    assert(0real <= a * a <= b * b) by (nonlinear_arith)
        requires
            -b <= a <= b,
    ;
}

} // verus!
