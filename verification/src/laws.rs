//! What holds of the arithmetic on every input.

use crate::align::common_exp;
use crate::arith::{
    fits_i32, lemma_scale_zero, lemma_wrap32_high_scale, lemma_wrap32_range, lemma_wrap32_sub,
    scale, wrap32,
};
use crate::log2::{lemma_floor_log2_unique, lemma_floor_log2_word};
use crate::reals::{
    lemma_pow2_real_adds, lemma_pow2_real_inverse, lemma_pow2_real_nat, lemma_pow2_real_pos,
    pow2_real,
};
use crate::fixed::{mul_value, newton, two_value, Fixed32};
use vstd::arithmetic::div_mod::lemma_div_multiples_vanish;
use vstd::arithmetic::power2::{
    lemma2_to64, lemma_pow2_adds, lemma_pow2_pos, lemma_pow2_strictly_increases,
    lemma_pow2_unfold, pow2,
};
use vstd::prelude::*;

verus! {

/// A raised mantissa stands for the same number at the raised exponent:
/// `(n * 2^s) * 2^(-m) == n * 2^(s - m)`.
proof fn lemma_scale_up_real(n: int, s: int, m: int)
    requires
        s >= 0,
    ensures
        scale(n, s) as real * pow2_real(-m) == n as real * pow2_real(s - m),
{
    lemma_pow2_real_nat(s as nat);
    lemma_pow2_real_adds(s, -m);
    let p = pow2(s as nat) as int;
    assert((n * p) as real == n as real * p as real) by (nonlinear_arith);
    let x = n as real;
    let y = p as real;
    let z = pow2_real(-m);
    assert((x * y) * z == x * (y * z)) by (nonlinear_arith);
}

/// The sum of two numbers of one exponent has that exponent, and its
/// mantissa is the sum of theirs, where that sum fits in 32 bits.
pub proof fn lemma_add_same_exponent(a: Fixed32, b: Fixed32)
    requires
        a.exp == b.exp,
        fits_i32(a.value + b.value),
    ensures
        a.add(b).exp == a.exp,
        a.add(b).value == a.value + b.value,
{
    lemma_scale_zero(a.value as int);
    lemma_scale_zero(b.value as int);
    lemma_wrap32_range(a.value + b.value);
}

/// The difference of two numbers of one exponent has that exponent, and its
/// mantissa is the difference of theirs, where that difference fits in 32
/// bits.
pub proof fn lemma_sub_same_exponent(a: Fixed32, b: Fixed32)
    requires
        a.exp == b.exp,
        fits_i32(a.value - b.value),
    ensures
        a.sub(b).exp == a.exp,
        a.sub(b).value == a.value - b.value,
{
    lemma_scale_zero(a.value as int);
    lemma_scale_zero(b.value as int);
    lemma_wrap32_range(a.value - b.value);
}

/// Addition is exact. The sum has the larger of the two exponents, and where
/// the aligned sum fits in 32 bits, the number it stands for is the sum of
/// the numbers that the operands stand for: aligning rounds nothing.
pub proof fn lemma_add_exact(a: Fixed32, b: Fixed32)
    requires
        fits_i32(
            a.scaled_to(common_exp(a.exp as int, b.exp as int)) + b.scaled_to(
                common_exp(a.exp as int, b.exp as int),
            ),
        ),
    ensures
        a.add(b).exp == common_exp(a.exp as int, b.exp as int),
        a.add(b).value == a.scaled_to(a.add(b).exp as int) + b.scaled_to(a.add(b).exp as int),
        a.add(b)@ == a@ + b@,
{
    let m = common_exp(a.exp as int, b.exp as int);
    let sa = a.scaled_to(m);
    let sb = b.scaled_to(m);
    lemma_wrap32_range(sa + sb);
    lemma_scale_up_real(a.value as int, m - a.exp, m);
    lemma_scale_up_real(b.value as int, m - b.exp, m);
    let z = pow2_real(-m);
    assert((sa + sb) as real * z == sa as real * z + sb as real * z) by (nonlinear_arith);
}

/// Subtraction is exact. The difference has the larger of the two exponents,
/// and where the aligned difference fits in 32 bits, the number it stands for
/// is the difference of the numbers that the operands stand for.
pub proof fn lemma_sub_exact(a: Fixed32, b: Fixed32)
    requires
        fits_i32(
            a.scaled_to(common_exp(a.exp as int, b.exp as int)) - b.scaled_to(
                common_exp(a.exp as int, b.exp as int),
            ),
        ),
    ensures
        a.sub(b).exp == common_exp(a.exp as int, b.exp as int),
        a.sub(b).value == a.scaled_to(a.sub(b).exp as int) - b.scaled_to(a.sub(b).exp as int),
        a.sub(b)@ == a@ - b@,
{
    let m = common_exp(a.exp as int, b.exp as int);
    let sa = a.scaled_to(m);
    let sb = b.scaled_to(m);
    lemma_wrap32_range(sa - sb);
    lemma_scale_up_real(a.value as int, m - a.exp, m);
    lemma_scale_up_real(b.value as int, m - b.exp, m);
    let z = pow2_real(-m);
    assert((sa - sb) as real * z == sa as real * z - sb as real * z) by (nonlinear_arith);
}

/// Addition does not depend on the order of its operands.
pub proof fn lemma_add_commutes(a: Fixed32, b: Fixed32)
    ensures
        a.add(b) == b.add(a),
{
}

/// Multiplication rounds down by less than one unit of the last place. The
/// product of two numbers of one exponent has that exponent, and where it
/// fits in 32 bits, the number it stands for is at most the product of the
/// numbers that the operands stand for, and less than `2^(-exp)` below it.
pub proof fn lemma_mul_rounds_down(a: Fixed32, b: Fixed32)
    requires
        a.exp == b.exp,
        fits_i32(scale(a.value * b.value, -a.exp)),
    ensures
        a.mul(b) is Ok,
        a.mul(b).unwrap().exp == a.exp,
        a.mul(b).unwrap()@ <= a@ * b@ < a.mul(b).unwrap()@ + pow2_real(-a.exp),
{
    let e = a.exp as int;
    let product = a.value * b.value;
    let p = scale(product, -e);
    let u = pow2_real(-e);
    let x = (a.value as int) as real;
    let y = (b.value as int) as real;
    lemma_wrap32_range(p);
    lemma_pow2_real_pos(-e);
    assert(product as real == x * y) by (nonlinear_arith)
        requires
            product == a.value * b.value,
            x == (a.value as int) as real,
            y == (b.value as int) as real,
    ;
    assert((x * u) * (y * u) == (x * y) * (u * u)) by (nonlinear_arith);
    if e > 0 {
        let unit = pow2(e as nat) as int;
        lemma_pow2_pos(e as nat);
        lemma_pow2_real_nat(e as nat);
        lemma_pow2_real_inverse(e);
        assert(p * unit <= product < (p + 1) * unit) by (nonlinear_arith)
            requires
                p == product / unit,
                unit > 0,
        ;
        let w = unit as real;
        assert((p * unit) as real == p as real * unit as real) by (nonlinear_arith);
        assert(((p + 1) * unit) as real == (p as real + 1real) * unit as real)
            by (nonlinear_arith);
        assert(p as real * u <= (x * y) * (u * u) < p as real * u + u) by (nonlinear_arith)
            requires
                p as real * w <= x * y < (p as real + 1real) * w,
                w * u == 1real,
                u > 0real,
        ;
    } else {
        lemma_pow2_real_nat((-e) as nat);
        let w = pow2((-e) as nat) as int;
        assert((product * w) as real == product as real * w as real) by (nonlinear_arith);
        assert(((x * y) * u) * u == (x * y) * (u * u)) by (nonlinear_arith);
    }
}

/// Lowering a mantissa that was raised by as much gives it back.
proof fn lemma_scale_down_exact(n: int, e: int)
    requires
        e >= 0,
    ensures
        scale(n * pow2(e as nat), -e) == n,
{
    let unit = pow2(e as nat) as int;
    lemma_pow2_pos(e as nat);
    if e == 0 {
        lemma_scale_zero(n);
        lemma_scale_zero(n * unit);
    } else {
        lemma_div_multiples_vanish(n, unit);
        assert(n * unit == unit * n) by (nonlinear_arith);
    }
}

/// A power of two below the sign bit is a mantissa as it stands.
proof fn lemma_pow2_fits(s: nat)
    requires
        s <= 30,
    ensures
        0 < pow2(s) <= 0x4000_0000,
        wrap32(pow2(s) as int) == pow2(s),
{
    lemma2_to64();
    lemma_pow2_pos(s);
    if s < 30 {
        lemma_pow2_strictly_increases(s, 30);
    }
    lemma_wrap32_range(pow2(s) as int);
}

/// The reciprocal of a power of two is exact, however many steps are taken.
/// For the mantissa `2^k` at an exponent from 0 to 30, where `2 * exp - k`
/// is from 0 to 30 too, the result's mantissa is `2^(2 * exp - k)`: the
/// number it stands for, times the number that `x` stands for, is 1.
pub proof fn lemma_reciprocal_of_power_of_two(x: Fixed32, k: nat, iterations: u32)
    requires
        x.value == pow2(k),
        0 <= x.exp <= 30,
        0 <= 2 * x.exp - k <= 30,
    ensures
        x.reciprocal_with_iterations(iterations).exp == x.exp,
        x.reciprocal_with_iterations(iterations).value == pow2((2 * x.exp - k) as nat),
        x@ * x.reciprocal_with_iterations(iterations)@ == 1real,
{
    let e = x.exp as int;
    let s = (2 * e - k) as nat;
    let g = pow2(s) as i32;
    lemma_pow2_fits(s);
    lemma_pow2_pos(k);
    lemma_pow2_pos(k + 1);
    lemma_pow2_unfold(k + 1);
    lemma_floor_log2_unique(x.value as nat, k);
    assert(x.initial_guess() == g) by {
        assert(1 * pow2(s) == pow2(s));
    }
    lemma_power_of_two_is_fixed(x, k, iterations as nat);
    // (2^k * 2^(-e)) * (2^s * 2^(-e)) == 2^(k + s - 2e) == 1
    lemma_pow2_real_nat(k);
    lemma_pow2_real_nat(s);
    lemma_pow2_real_adds(k as int, -e);
    lemma_pow2_real_adds(s as int, -e);
    lemma_pow2_real_adds(k - e, s - e);
    assert(pow2_real(0) == 1real);
}

/// A Newton-Raphson step leaves the exact reciprocal of a power of two where
/// it is, and so does any number of them.
proof fn lemma_power_of_two_is_fixed(x: Fixed32, k: nat, n: nat)
    requires
        x.value == pow2(k),
        0 <= x.exp <= 30,
        0 <= 2 * x.exp - k <= 30,
    ensures
        newton(pow2((2 * x.exp - k) as nat) as i32, x.value, x.exp, n) == pow2(
            (2 * x.exp - k) as nat,
        ),
    decreases n,
{
    let e = x.exp as int;
    let s = (2 * e - k) as nat;
    let g = pow2(s) as i32;
    let one = pow2(e as nat) as int;
    lemma_pow2_fits(s);
    lemma_pow2_fits(e as nat);
    if n > 0 {
        lemma_power_of_two_is_fixed(x, k, (n - 1) as nat);
        // r * x is one: 2^s * 2^k == 2^e * 2^e
        lemma_pow2_adds(s, k);
        lemma_pow2_adds(e as nat, e as nat);
        lemma_scale_down_exact(one, e);
        let rx = mul_value(g as int, x.value as int, e);
        assert(rx == one);
        // 2 - 1 is one
        lemma_pow2_unfold((e + 1) as nat);
        assert(1 * pow2((e + 1) as nat) == 2 * one);
        lemma_wrap32_sub(2 * one, rx as int);
        assert(wrap32(two_value(e) - rx) == one);
        // r * one is r
        lemma_scale_down_exact(g as int, e);
    }
}

/// Zero scales to zero.
proof fn lemma_scale_of_zero(s: int)
    ensures
        scale(0, s) == 0,
{
    if s >= 0 {
        assert(0 * pow2(s as nat) == 0);
    } else {
        lemma_pow2_pos((-s) as nat);
        assert(0int / (pow2((-s) as nat) as int) == 0);
    }
}

/// The first estimate by cases. With `s` for `2 * exp - k`, where `k` is the
/// index of the mantissa's highest set bit, it is `2^s` for `s` from 0 to 30,
/// the most negative mantissa at 31, which is `2^31` wrapped, and 0 where `s`
/// is negative or above 31.
pub proof fn lemma_initial_guess(x: Fixed32)
    ensures
        0 <= 2 * x.exp - x.get_leading_one_index() <= 30 ==> x.initial_guess() == pow2(
            (2 * x.exp - x.get_leading_one_index()) as nat,
        ),
        2 * x.exp - x.get_leading_one_index() == 31 ==> x.initial_guess() == i32::MIN,
        2 * x.exp - x.get_leading_one_index() < 0 || 2 * x.exp - x.get_leading_one_index() > 31
            ==> x.initial_guess() == 0,
{
    let s = 2 * x.exp - x.get_leading_one_index();
    lemma_floor_log2_word(x.value);
    lemma2_to64();
    if 0 <= s <= 30 {
        lemma_pow2_fits(s as nat);
        assert(1 * pow2(s as nat) == pow2(s as nat));
    } else if s == 31 {
        assert(1 * pow2(31) == 0x8000_0000);
        lemma_wrap32_range(0x8000_0000);
    } else if s > 31 {
        lemma_wrap32_high_scale(1, s as nat);
    } else {
        let t = (-s) as nat;
        if t > 1 {
            lemma_pow2_strictly_increases(1, t);
        }
        assert(1int / (pow2(t) as int) == 0) by (nonlinear_arith)
            requires
                pow2(t) >= 2,
        ;
        lemma_wrap32_range(0);
    }
}

/// An estimate of zero stays zero, whatever the divisor and however many
/// steps are taken.
pub proof fn lemma_zero_estimate_stays(x: i32, exp: i32, n: nat)
    ensures
        newton(0, x, exp, n) == 0,
    decreases n,
{
    if n > 0 {
        lemma_zero_estimate_stays(x, exp, (n - 1) as nat);
        lemma_scale_of_zero(-(exp as int));
        lemma_wrap32_range(0);
        assert(0 * x == 0);
        let rx = mul_value(0, x as int, exp as int);
        let t2 = wrap32(two_value(exp as int) - rx);
        assert(0 * t2 == 0);
    }
}

/// Where the first estimate is out of range, the reciprocal is zero: with
/// `2 * exp - k` negative or above 31, where `k` is the index of the
/// mantissa's highest set bit, the first estimate is 0 and stays 0.
pub proof fn lemma_reciprocal_out_of_range(x: Fixed32, iterations: u32)
    requires
        2 * x.exp - x.get_leading_one_index() < 0 || 2 * x.exp - x.get_leading_one_index() > 31,
    ensures
        x.reciprocal_with_iterations(iterations).value == 0,
        x.reciprocal_with_iterations(iterations).exp == x.exp,
{
    lemma_initial_guess(x);
    lemma_zero_estimate_stays(x.value, x.exp, iterations as nat);
}

} // verus!
