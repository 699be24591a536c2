//! Integer arithmetic behind the fixed-point operations: 32-bit wraparound
//! and scaling by powers of two, as mathematics and as machine code.

use vstd::arithmetic::div_mod::{lemma_div_denominator, lemma_mod_multiples_basic};
use vstd::arithmetic::power2::{
    lemma2_to64, lemma_pow2_adds, lemma_pow2_pos, lemma_pow2_unfold, pow2,
};
use vstd::prelude::*;

verus! {

/// The 32-bit two's-complement reading of `n`: the one integer in
/// `[-2^31, 2^31)` that differs from `n` by a multiple of `2^32`.
pub open spec fn wrap32(n: int) -> i32 {
    ((n + 0x8000_0000) % 0x1_0000_0000 - 0x8000_0000) as i32
}

/// `n * 2^s`, rounded down to an integer where `s` is negative.
pub open spec fn scale(n: int, s: int) -> int {
    if s >= 0 {
        n * pow2(s as nat)
    } else {
        n / (pow2((-s) as nat) as int)
    }
}

/// Whether `n` is a value of `i32`.
pub open spec fn fits_i32(n: int) -> bool {
    i32::MIN <= n <= i32::MAX
}

/// Scaling by `2^0` changes nothing.
pub proof fn lemma_scale_zero(n: int)
    ensures
        scale(n, 0) == n,
{
    lemma2_to64();
    assert(n * pow2(0) == n) by (nonlinear_arith)
        requires
            pow2(0) == 1,
    ;
}

/// Wrapping keeps what fits, and moves what does not by a multiple of
/// `2^32`.
pub proof fn lemma_wrap32_range(n: int)
    ensures
        wrap32(n) == (n + 0x8000_0000) % 0x1_0000_0000 - 0x8000_0000,
        fits_i32(n) ==> wrap32(n) == n,
        (wrap32(n) - n) % 0x1_0000_0000 == 0,
{
}

/// Two integers that differ by a multiple of `2^32` wrap to the same value.
pub proof fn lemma_wrap32_congruent(a: int, b: int)
    requires
        (a - b) % 0x1_0000_0000 == 0,
    ensures
        wrap32(a) == wrap32(b),
{
}

/// Wrapping a factor first does not change the wrapped product.
pub proof fn lemma_wrap32_mul(n: int, m: int)
    ensures
        wrap32(wrap32(n) * m) == wrap32(n * m),
{
    let d = wrap32(n) - n;
    let q = d / 0x1_0000_0000;
    assert(d == 0x1_0000_0000 * q);
    assert(wrap32(n) * m - n * m == (q * m) * 0x1_0000_0000) by (nonlinear_arith)
        requires
            wrap32(n) - n == 0x1_0000_0000 * q,
    ;
    lemma_mod_multiples_basic(q * m, 0x1_0000_0000);
    lemma_wrap32_congruent(wrap32(n) * m, n * m);
}

/// Wrapping a summand first does not change the wrapped sum.
pub proof fn lemma_wrap32_add(a: int, b: int)
    ensures
        wrap32(a + wrap32(b)) == wrap32(a + b),
        wrap32(wrap32(a) + b) == wrap32(a + b),
{
    lemma_wrap32_range(a);
    lemma_wrap32_range(b);
    lemma_wrap32_congruent(a + wrap32(b), a + b);
    lemma_wrap32_congruent(wrap32(a) + b, a + b);
}

/// Wrapping the minuend or the subtrahend first does not change the wrapped
/// difference.
pub proof fn lemma_wrap32_sub(a: int, b: int)
    ensures
        wrap32(a - wrap32(b)) == wrap32(a - b),
        wrap32(wrap32(a) - b) == wrap32(a - b),
{
    lemma_wrap32_range(a);
    lemma_wrap32_range(b);
    assert(((a - wrap32(b)) - (a - b)) % 0x1_0000_0000 == 0) by {
        assert((a - wrap32(b)) - (a - b) == -(wrap32(b) - b));
        lemma_neg_multiple(wrap32(b) - b);
    }
    lemma_wrap32_congruent(a - wrap32(b), a - b);
    lemma_wrap32_congruent(wrap32(a) - b, a - b);
}

/// The negation of a multiple of `2^32` is one too.
proof fn lemma_neg_multiple(d: int)
    requires
        d % 0x1_0000_0000 == 0,
    ensures
        (-d) % 0x1_0000_0000 == 0,
{
}

/// A product with `2^s` wraps to zero once `s` reaches the word size.
pub proof fn lemma_wrap32_high_scale(n: int, s: nat)
    requires
        s >= 32,
    ensures
        wrap32(n * pow2(s)) == 0,
{
    lemma_pow2_adds(32, (s - 32) as nat);
    lemma2_to64();
    let rest = pow2((s - 32) as nat) as int;
    assert(n * pow2(s) == (n * rest) * 0x1_0000_0000) by (nonlinear_arith)
        requires
            pow2(s) == 0x1_0000_0000 * rest,
    ;
    lemma_mod_multiples_basic(n * rest, 0x1_0000_0000);
    lemma_wrap32_congruent(n * pow2(s), 0);
}

/// A left shift of a 32-bit word multiplies by a power of two and wraps.
pub proof fn lemma_shl_wraps(v: i32, s: u32)
    requires
        s < 32,
    ensures
        v << s == wrap32(v * pow2(s as nat)),
    decreases s,
{
    if s == 0 {
        assert(v << 0u32 == v) by (bit_vector);
        lemma2_to64();
        assert(v * pow2(0) == v);
    } else {
        let p = (s - 1) as u32;
        let y = v << p;
        lemma_shl_wraps(v, p);
        assert(v << s == y << 1u32) by (bit_vector)
            requires
                s == p + 1,
                s < 32,
                y == v << p,
        ;
        assert(((y << 1u32) as int - 2 * y) % 0x1_0000_0000 == 0) by (bit_vector);
        lemma_pow2_unfold(s as nat);
        assert(v * pow2(s as nat) == 2 * (v * pow2(p as nat))) by (nonlinear_arith)
            requires
                pow2(s as nat) == 2 * pow2(p as nat),
        ;
        lemma_wrap32_mul(v * pow2(p as nat), 2);
        lemma_wrap32_congruent((y << 1u32) as int, 2 * y);
    }
}

/// An arithmetic right shift of a 64-bit word divides by a power of two,
/// rounding down.
pub proof fn lemma_shr_floors(n: i64, t: u32)
    requires
        t < 64,
    ensures
        (n >> t) as int == (n as int) / (pow2(t as nat) as int),
    decreases t,
{
    if t == 0 {
        assert(n >> 0u32 == n) by (bit_vector);
        lemma2_to64();
        assert((n as int) / 1 == n);
    } else {
        let p = (t - 1) as u32;
        let y = n >> p;
        lemma_shr_floors(n, p);
        assert(n >> t == y >> 1u32) by (bit_vector)
            requires
                t == p + 1,
                t < 64,
                y == n >> p,
        ;
        assert((y >> 1u32) as int == (y as int) / 2) by (bit_vector);
        lemma_pow2_unfold(t as nat);
        lemma_pow2_pos(p as nat);
        let c = pow2(p as nat) as int;
        lemma_floor_div_twice(n as int, c, 2);
        assert(c * 2 == pow2(t as nat));
        assert((n >> t) as int == ((n as int) / c) / 2);
        assert((n as int) / (c * 2) == (n as int) / (pow2(t as nat) as int));
    }
}

/// Rounding down twice is rounding down once by the product.
pub proof fn lemma_floor_div_twice(x: int, c: int, d: int)
    requires
        0 < c,
        0 < d,
    ensures
        (x / c) / d == x / (c * d),
{
    if x >= 0 {
        lemma_div_denominator(x, c, d);
    } else {
        let q = x / (c * d);
        let r = x % (c * d);
        assert(0 < c * d) by (nonlinear_arith)
            requires
                0 < c,
                0 < d,
        ;
        assert(x == (c * d) * q + r && 0 <= r < c * d) by (nonlinear_arith)
            requires
                0 < c * d,
                q == x / (c * d),
                r == x % (c * d),
        ;
        lemma_div_denominator(r, c, d);
        assert(r / (c * d) == 0) by (nonlinear_arith)
            requires
                0 <= r < c * d,
        ;
        // x / c == d * q + r / c
        assert(x == c * (d * q + r / c) + r % c && 0 <= r % c < c) by (nonlinear_arith)
            requires
                x == (c * d) * q + r,
                0 < c,
        ;
        assert(x / c == d * q + r / c) by (nonlinear_arith)
            requires
                x == c * (d * q + r / c) + r % c,
                0 <= r % c < c,
                0 < c,
        ;
        assert((d * q + r / c) / d == q) by (nonlinear_arith)
            requires
                (r / c) / d == 0,
                0 <= r / c,
                0 < d,
        ;
    }
}

/// Narrowing a 64-bit word to 32 bits wraps it.
pub proof fn lemma_narrow_wraps(x: i64)
    ensures
        x as i32 == wrap32(x as int),
{
    assert((x as i32) as int == (x + 0x8000_0000) % 0x1_0000_0000 - 0x8000_0000) by (bit_vector);
    lemma_wrap32_range(x as int);
}

/// Dividing a 64-bit word by `2^t` with `t` at least 64 leaves only its sign.
pub proof fn lemma_floor_beyond_word(n: i64, t: nat)
    requires
        t >= 64,
    ensures
        (n as int) / (pow2(t) as int) == if n < 0 { -1int } else { 0 },
{
    lemma_pow2_adds(64, (t - 64) as nat);
    lemma_pow2_pos((t - 64) as nat);
    lemma2_to64();
    let d = pow2(t) as int;
    assert(d >= 0x1_0000_0000_0000_0000) by (nonlinear_arith)
        requires
            d == 0x1_0000_0000_0000_0000 * pow2((t - 64) as nat),
            pow2((t - 64) as nat) > 0,
    ;
    if n < 0 {
        assert((n as int) / d == -1) by (nonlinear_arith)
            requires
                -d < n < 0,
        ;
    } else {
        assert((n as int) / d == 0) by (nonlinear_arith)
            requires
                0 <= n < d,
        ;
    }
}

/// Computes `n * 2^s` rounded down, wrapped to 32 bits.
pub fn shift_wrapped(n: i64, s: i64) -> (r: i32)
    ensures
        r == wrap32(scale(n as int, s as int)),
{
    if s >= 32 {
        proof {
            lemma_wrap32_high_scale(n as int, s as nat);
        }
        0
    } else if s >= 0 {
        let low: i32 = #[verifier::truncate] (n as i32);
        let amount: u32 = s as u32;
        proof {
            lemma_narrow_wraps(n);
            lemma_shl_wraps(low, amount);
            lemma_wrap32_mul(n as int, pow2(s as nat) as int);
        }
        low << amount
    } else if s > -64 {
        let amount: u32 = (-s) as u32;
        let shifted: i64 = n >> amount;
        proof {
            lemma_shr_floors(n, amount);
            lemma_narrow_wraps(shifted);
        }
        #[verifier::truncate] (shifted as i32)
    } else {
        proof {
            lemma_floor_beyond_word(n, (-s) as nat);
        }
        if n < 0 {
            -1
        } else {
            0
        }
    }
}

} // verus!
