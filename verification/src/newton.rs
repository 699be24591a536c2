//! How fast the Newton-Raphson steps of `reciprocal` approach the
//! reciprocal, and how close a quotient comes from it.

use crate::arith::{fits_i32, lemma_scale_zero, lemma_wrap32_range, scale};
use crate::fixed::{mul_value, newton, newton_step, two_value, Fixed32, NEWTON_ITERATIONS};
use crate::laws::lemma_mul_rounds_down;
use crate::log2::{floor_log2, lemma_floor_log2_bounds, lemma_floor_log2_word, low31};
use crate::reals::{
    lemma_pow2_real_adds, lemma_pow2_real_inverse, lemma_pow2_real_nat, lemma_pow2_real_pos,
    lemma_real_mul_distributes, lemma_real_mul_le, lemma_real_mul_pair, lemma_real_square_le,
    pow2_real,
};
use vstd::arithmetic::power2::{
    lemma2_to64, lemma_pow2_adds, lemma_pow2_pos, lemma_pow2_strictly_increases,
    lemma_pow2_unfold, pow2,
};
use vstd::prelude::*;

verus! {

/// The estimate that one step makes of the estimate `r` of the reciprocal of
/// `x`, as a number of the exponent of `x`.
pub open spec fn step(r: Fixed32, x: Fixed32) -> Fixed32 {
    Fixed32 { value: newton_step(r.value, x.value, x.exp), exp: x.exp }
}

/// Inputs on which a step works without wraparound: an exponent from 0 to
/// 29, a positive `x`, and an estimate `r` of the same exponent that is not
/// negative, is below `2^30` as a mantissa, and with `r * x` at most 2.
pub open spec fn step_in_range(r: Fixed32, x: Fixed32) -> bool {
    &&& r.exp == x.exp
    &&& 0 <= x.exp <= 29
    &&& x.value > 0
    &&& 0 <= r.value < 0x4000_0000
    &&& r.value * x.value <= 2 * pow2((2 * x.exp) as nat)
}

/// One step on whole numbers, with `unit` standing for one: from `r` to
/// `r * (2 * unit - r * v / unit) / unit`, both divisions rounding down.
pub open spec fn step_value(r: int, v: int, unit: int) -> int {
    (r * (2 * unit - (r * v) / unit)) / unit
}

/// A step on whole numbers squares the distance of `r * v` from one, up to
/// the two roundings: with `x` for `unit * unit`, which stands for one in a
/// product of two mantissas, and `next` for the new estimate,
/// `(x - r * v)^2 - r * v * unit <= x * (x - next * v) <= (x - r * v)^2 + x * v`.
pub proof fn lemma_step_value(r: int, v: int, unit: int)
    requires
        unit > 0,
        v > 0,
        r >= 0,
        r * v <= 2 * (unit * unit),
    ensures
        0 <= (r * v) / unit <= 2 * unit,
        0 <= step_value(r, v, unit) <= 2 * r,
        (unit * unit - r * v) * (unit * unit - r * v) - (r * v) * unit <= (unit * unit) * (unit
            * unit - step_value(r, v, unit) * v),
        (unit * unit) * (unit * unit - step_value(r, v, unit) * v) <= (unit * unit - r * v) * (unit
            * unit - r * v) + (unit * unit) * v,
{
    let x = unit * unit;
    let y = r * v;
    let t1 = y / unit;
    let t2 = 2 * unit - t1;
    let w = r * t2;
    let next = w / unit;
    assert(y >= 0) by (nonlinear_arith)
        requires
            y == r * v,
            r >= 0,
            v > 0,
    ;
    assert(t1 * unit <= y < t1 * unit + unit) by (nonlinear_arith)
        requires
            t1 == y / unit,
            unit > 0,
    ;
    assert(0 <= t1 <= 2 * unit) by (nonlinear_arith)
        requires
            t1 * unit <= y < t1 * unit + unit,
            0 <= y <= 2 * (unit * unit),
            unit > 0,
    ;
    assert(0 <= w <= r * (2 * unit)) by (nonlinear_arith)
        requires
            w == r * t2,
            r >= 0,
            0 <= t2 <= 2 * unit,
    ;
    assert(next * unit <= w < next * unit + unit) by (nonlinear_arith)
        requires
            next == w / unit,
            unit > 0,
    ;
    assert(0 <= next <= 2 * r) by (nonlinear_arith)
        requires
            next * unit <= w < next * unit + unit,
            0 <= w <= r * (2 * unit),
            unit > 0,
    ;
    // The product w * v is y * t2.
    assert(w * v == y * t2) by (nonlinear_arith)
        requires
            w == r * t2,
            y == r * v,
    ;
    // What the new estimate times v, raised by unit twice, lies between.
    let nv = next * v;
    assert(nv * unit <= y * t2) by (nonlinear_arith)
        requires
            nv == next * v,
            next * unit <= w,
            w * v == y * t2,
            v > 0,
    ;
    assert(nv * unit > y * t2 - unit * v) by (nonlinear_arith)
        requires
            nv == next * v,
            w < next * unit + unit,
            w * v == y * t2,
            v > 0,
    ;
    let t2u = t2 * unit;
    assert(t2u == 2 * x - t1 * unit) by (nonlinear_arith)
        requires
            t2u == t2 * unit,
            t2 == 2 * unit - t1,
            x == unit * unit,
    ;
    assert(2 * x - y <= t2u < 2 * x - y + unit);
    assert(nv * x <= y * t2u) by (nonlinear_arith)
        requires
            nv * unit <= y * t2,
            t2u == t2 * unit,
            x == unit * unit,
            unit > 0,
    ;
    assert(nv * x > y * t2u - x * v) by (nonlinear_arith)
        requires
            nv * unit > y * t2 - unit * v,
            t2u == t2 * unit,
            x == unit * unit,
            unit > 0,
    ;
    assert(y * t2u <= y * (2 * x - y + unit)) by (nonlinear_arith)
        requires
            y >= 0,
            t2u < 2 * x - y + unit,
    ;
    assert(y * t2u >= y * (2 * x - y)) by (nonlinear_arith)
        requires
            y >= 0,
            2 * x - y <= t2u,
    ;
    assert((x - y) * (x - y) - y * unit == x * x - y * (2 * x - y + unit)) by (nonlinear_arith);
    assert((x - y) * (x - y) + x * v == x * x - (y * (2 * x - y) - x * v)) by (nonlinear_arith);
    assert(x * (x - nv) == x * x - nv * x) by (nonlinear_arith);
}

/// Lowering a mantissa divides it by a power of two, rounding down.
proof fn lemma_scale_down(n: int, e: nat)
    ensures
        scale(n, -(e as int)) == n / (pow2(e) as int),
{
    if e == 0 {
        lemma_scale_zero(n);
        lemma2_to64();
    }
}

/// Where a step is in range, nothing in it wraps: it is the step on whole
/// numbers, and its estimate is not negative and at most twice the old one.
pub proof fn lemma_step_unwrapped(r: Fixed32, x: Fixed32)
    requires
        step_in_range(r, x),
    ensures
        step(r, x).value == step_value(r.value as int, x.value as int, pow2(x.exp as nat) as int),
        0 <= step(r, x).value <= 2 * r.value,
{
    let e = x.exp as nat;
    let unit = pow2(e) as int;
    let y = r.value * x.value;
    lemma2_to64();
    lemma_pow2_pos(e);
    lemma_pow2_adds(e, e);
    lemma_pow2_unfold(e + 1);
    if e < 29 {
        lemma_pow2_strictly_increases(e, 29);
    }
    lemma_step_value(r.value as int, x.value as int, unit);
    let t1 = y / unit;
    lemma_scale_down(y, e);
    lemma_wrap32_range(t1);
    assert(mul_value(r.value as int, x.value as int, x.exp as int) == t1);
    assert(1 * pow2(e + 1) == 2 * unit);
    lemma_wrap32_range(2 * unit);
    assert(two_value(x.exp as int) == 2 * unit);
    let t2 = 2 * unit - t1;
    lemma_wrap32_range(t2);
    let next = (r.value * t2) / unit;
    lemma_scale_down(r.value * t2, e);
    lemma_wrap32_range(next);
}

/// The bounds of a step, divided by one squared twice: from mantissas of
/// products to the numbers they stand for.
proof fn lemma_rescale_error(one: real, u: real, y: real, n: real, v: real)
    requires
        one * u == 1real,
        u > 0real,
        (one * one - y) * (one * one - y) - y * one <= (one * one) * (one * one - n),
        (one * one) * (one * one - n) <= (one * one - y) * (one * one - y) + (one * one) * v,
    ensures
        (1real - y * (u * u)) * (1real - y * (u * u)) - (y * (u * u)) * u <= 1real - n * (u * u),
        1real - n * (u * u) <= (1real - y * (u * u)) * (1real - y * (u * u)) + v * (u * u),
{
    let x = one * one;
    let q = u * u;
    let k = q * q;
    lemma_real_mul_pair(one, one, u);
    assert(x * q == 1real);
    lemma_real_mul_le(0real, u, u);
    lemma_real_mul_le(0real, q, q);
    assert(k >= 0real);
    // one * q == u
    assert(one * q == u) by (nonlinear_arith)
        requires
            one * u == 1real,
            q == u * u,
    ;
    let d = x - y;
    let sq = d * d;
    let low = sq - y * one;
    let mid = x * (x - n);
    let high = sq + x * v;
    lemma_real_mul_le(low, mid, k);
    lemma_real_mul_le(mid, high, k);
    // each term, multiplied by k
    lemma_real_mul_distributes(x, y, q);
    lemma_real_mul_distributes(x, n, q);
    lemma_real_mul_pair(d, d, q);
    lemma_real_mul_pair(y, one, q);
    lemma_real_mul_pair(x, x - n, q);
    lemma_real_mul_pair(x, v, q);
    lemma_real_mul_distributes(sq, y * one, k);
    lemma_real_mul_distributes(sq, x * v, k);
    assert(d * q == 1real - y * q);
    assert((x - n) * q == 1real - n * q);
    assert(sq * k == (1real - y * q) * (1real - y * q));
    assert((y * one) * k == (y * q) * u);
    assert(mid * k == 1real * (1real - n * q));
    assert((x * v) * k == 1real * (v * q));
}

/// A step squares the error, up to the roundings of its two products. With
/// `err` for `1 - x * r`, how far the estimate `r` is from the reciprocal of
/// `x` relative to it, and `ulp` for `2^(-exp)`, the new estimate satisfies
/// `err^2 - x * r * ulp <= 1 - x * next <= err^2 + x * ulp`.
pub proof fn lemma_step_error(r: Fixed32, x: Fixed32)
    requires
        step_in_range(r, x),
    ensures
        (1real - x@ * r@) * (1real - x@ * r@) - (x@ * r@) * pow2_real(-(x.exp as int)) <= 1real
            - x@ * step(r, x)@,
        1real - x@ * step(r, x)@ <= (1real - x@ * r@) * (1real - x@ * r@) + x@ * pow2_real(
            -(x.exp as int),
        ),
{
    let e = x.exp as nat;
    let unit = pow2(e) as int;
    let next = step(r, x).value as int;
    lemma_pow2_pos(e);
    lemma_pow2_adds(e, e);
    lemma_step_unwrapped(r, x);
    lemma_step_value(r.value as int, x.value as int, unit);
    // The same in real numbers.
    let u = pow2_real(-(e as int));
    let one = unit as real;
    let rr = (r.value as int) as real;
    let vr = (x.value as int) as real;
    let nr = next as real;
    lemma_pow2_real_pos(-(e as int));
    lemma_pow2_real_nat(e);
    lemma_pow2_real_inverse(e as int);
    assert(one * u == 1real);
    let xx = one * one;
    let yr = rr * vr;
    let y = r.value * x.value;
    let xi = unit * unit;
    assert(xi as real == xx) by (nonlinear_arith)
        requires
            xi == unit * unit,
            xx == one * one,
            one == unit as real,
    ;
    assert(y as real == yr) by (nonlinear_arith)
        requires
            y == r.value * x.value,
            yr == rr * vr,
            rr == (r.value as int) as real,
            vr == (x.value as int) as real,
    ;
    let low = (xi - y) * (xi - y) - y * unit;
    let mid = xi * (xi - next * x.value);
    let high = (xi - y) * (xi - y) + xi * x.value;
    assert(low <= mid <= high);
    assert(low as real == (xx - yr) * (xx - yr) - yr * one) by (nonlinear_arith)
        requires
            low == (xi - y) * (xi - y) - y * unit,
            xi as real == xx,
            y as real == yr,
            one == unit as real,
    ;
    assert(mid as real == xx * (xx - nr * vr)) by (nonlinear_arith)
        requires
            mid == xi * (xi - next * x.value),
            xi as real == xx,
            nr == next as real,
            vr == (x.value as int) as real,
    ;
    assert(high as real == (xx - yr) * (xx - yr) + xx * vr) by (nonlinear_arith)
        requires
            high == (xi - y) * (xi - y) + xi * x.value,
            xi as real == xx,
            y as real == yr,
            vr == (x.value as int) as real,
    ;
    lemma_rescale_error(one, u, yr, nr * vr, vr);
    // The numbers that the mantissas stand for.
    assert(x@ * r@ == yr * (u * u)) by (nonlinear_arith)
        requires
            x@ == vr * u,
            r@ == rr * u,
            yr == rr * vr,
    ;
    assert(x@ * step(r, x)@ == (nr * vr) * (u * u)) by (nonlinear_arith)
        requires
            x@ == vr * u,
            step(r, x)@ == nr * u,
    ;
    assert(x@ * u == vr * (u * u)) by (nonlinear_arith)
        requires
            x@ == vr * u,
    ;
}

/// The divisors whose reciprocal is refined without wraparound: a positive
/// mantissa at an exponent from 2 to 29, with a first estimate `2^s` where
/// `s` is from 0 to 29.
pub open spec fn reciprocal_in_range(x: Fixed32) -> bool {
    &&& 2 <= x.exp <= 29
    &&& x.value > 0
    &&& 0 <= 2 * x.exp - x.spec_leading_one_index() <= 29
}

/// The estimate of the reciprocal of `x` after `n` steps.
pub open spec fn estimate(x: Fixed32, n: nat) -> Fixed32 {
    Fixed32 { value: newton(x.initial_guess(), x.value, x.exp, n), exp: x.exp }
}

/// The first estimate of an `x` in range is in range for a step, and
/// `x` times it is from 1 up to, and not including, 2.
pub proof fn lemma_first_estimate(x: Fixed32)
    requires
        reciprocal_in_range(x),
    ensures
        step_in_range(estimate(x, 0), x),
        pow2((2 * x.exp) as nat) <= estimate(x, 0).value * x.value < 2 * pow2((2 * x.exp) as nat),
{
    let e = x.exp as nat;
    let k = floor_log2(low31(x.value));
    lemma_floor_log2_word(x.value);
    let s = (2 * e - k) as nat;
    let v = x.value as int;
    lemma2_to64();
    lemma_floor_log2_bounds(v as nat);
    lemma_pow2_pos(s);
    if s < 29 {
        lemma_pow2_strictly_increases(s, 29);
    }
    let g = pow2(s) as int;
    assert(1 * pow2(s) == pow2(s));
    lemma_wrap32_range(g);
    assert(estimate(x, 0).value == g);
    lemma_pow2_adds(s, k);
    lemma_pow2_adds(s, k + 1);
    lemma_pow2_unfold(2 * e + 1);
    assert(g * pow2(k) <= g * v < g * pow2(k + 1)) by (nonlinear_arith)
        requires
            g > 0,
            pow2(k) <= v < pow2(k + 1),
    ;
}

/// A step from an estimate in range, of an `x` in range, is in range again.
pub proof fn lemma_step_stays_in_range(r: Fixed32, x: Fixed32)
    requires
        reciprocal_in_range(x),
        step_in_range(r, x),
    ensures
        step_in_range(step(r, x), x),
{
    let e = x.exp as nat;
    let k = floor_log2(low31(x.value));
    lemma_floor_log2_word(x.value);
    let s = (2 * e - k) as nat;
    let v = x.value as int;
    let unit = pow2(e) as int;
    let xx = unit * unit;
    let y = r.value * v;
    let next = step(r, x).value as int;
    lemma2_to64();
    lemma_pow2_pos(e);
    lemma_pow2_adds(e, e);
    lemma_pow2_strictly_increases(1, e);
    lemma_step_unwrapped(r, x);
    lemma_step_value(r.value as int, v, unit);
    let nv = next * v;
    // next * v is at most one and two units of the last place
    assert(y >= 0) by (nonlinear_arith)
        requires
            y == r.value * v,
            r.value >= 0,
            v > 0,
    ;
    let sq = (xx - y) * (xx - y);
    assert(sq >= 0) by (nonlinear_arith)
        requires
            sq == (xx - y) * (xx - y),
    ;
    assert(y * unit <= 2 * xx * unit) by (nonlinear_arith)
        requires
            y <= 2 * xx,
            unit > 0,
    ;
    assert(xx > 0) by (nonlinear_arith)
        requires
            xx == unit * unit,
            unit > 0,
    ;
    assert(2 * xx * unit == (2 * unit) * xx) by (nonlinear_arith);
    assert(sq - y * unit <= xx * (xx - nv));
    assert(xx * (xx - nv) >= -((2 * unit) * xx));
    assert(xx - nv >= -(2 * unit)) by (nonlinear_arith)
        requires
            xx * (xx - nv) >= -((2 * unit) * xx),
            xx > 0,
    ;
    assert(xx >= 4 * unit) by (nonlinear_arith)
        requires
            xx == unit * unit,
            unit >= 4,
    ;
    // and so the new estimate is below 2^30
    lemma_floor_log2_bounds(v as nat);
    lemma_pow2_pos(k);
    lemma_pow2_pos(s);
    lemma_pow2_adds(s, k);
    if s < 29 {
        lemma_pow2_strictly_increases(s, 29);
    }
    let g = pow2(s) as int;
    let low = pow2(k) as int;
    if next >= 2 * g {
        assert(next * v >= (2 * g) * low) by (nonlinear_arith)
            requires
                next >= 2 * g,
                v >= low,
                g > 0,
                low > 0,
        ;
        assert((2 * g) * low == 2 * (g * low)) by (nonlinear_arith);
        assert(false);
    }
}

/// What bounds the error after `n` steps: it starts at `first`, and each
/// step squares it and adds `slack`.
pub open spec fn error_bound(first: real, slack: real, n: nat) -> real
    decreases n,
{
    if n == 0 {
        first
    } else {
        error_bound(first, slack, (n - 1) as nat) * error_bound(first, slack, (n - 1) as nat)
            + slack
    }
}

/// What the roundings of one step can add to the error: one unit of the last
/// place, `2^(-exp)`, times `x` or 2, whichever is larger.
pub open spec fn rounding_slack(x: Fixed32) -> real {
    if x@ >= 2real {
        x@ * pow2_real(-(x.exp as int))
    } else {
        2real * pow2_real(-(x.exp as int))
    }
}

/// How far the first estimate is above the reciprocal, relative to it:
/// `x * guess - 1`. It is the part of the mantissa above its highest set
/// bit, relative to that bit.
pub open spec fn first_error(x: Fixed32) -> real {
    x@ * estimate(x, 0)@ - 1real
}

/// The product of the numbers that two mantissas of one exponent stand for
/// is their product, as whole numbers, over one squared.
proof fn lemma_product_view(r: Fixed32, x: Fixed32)
    requires
        r.exp == x.exp,
        x.exp >= 0,
    ensures
        x@ * r@ == (r.value * x.value) as real * (pow2_real(-(x.exp as int)) * pow2_real(
            -(x.exp as int),
        )),
        pow2((2 * x.exp) as nat) as real * (pow2_real(-(x.exp as int)) * pow2_real(
            -(x.exp as int),
        )) == 1real,
        pow2_real(-(x.exp as int)) > 0real,
{
    let e = x.exp as int;
    let u = pow2_real(-e);
    let rr = (r.value as int) as real;
    let vr = (x.value as int) as real;
    lemma_pow2_real_pos(-e);
    assert((r.value * x.value) as real == rr * vr) by (nonlinear_arith)
        requires
            rr == (r.value as int) as real,
            vr == (x.value as int) as real,
    ;
    lemma_real_mul_pair(rr, vr, u);
    assert((vr * u) * (rr * u) == (rr * u) * (vr * u)) by (nonlinear_arith);
    lemma_pow2_real_nat((2 * e) as nat);
    lemma_pow2_real_adds(-e, -e);
    lemma_pow2_real_inverse(2 * e);
}

/// The error of the reciprocal. For an `x` in range, every step finds its
/// estimate in range, so nothing wraps, and after `n` steps the relative
/// error `1 - x * estimate` is within the bound that starts at the first
/// error and is squared, with the rounding slack added, at each step.
pub proof fn lemma_estimate_error(x: Fixed32, n: nat)
    requires
        reciprocal_in_range(x),
    ensures
        step_in_range(estimate(x, n), x),
        0real <= first_error(x) < 1real,
        0real <= x@ * estimate(x, n)@ <= 2real,
        -error_bound(first_error(x), rounding_slack(x), n) <= 1real - x@ * estimate(x, n)@,
        1real - x@ * estimate(x, n)@ <= error_bound(first_error(x), rounding_slack(x), n),
    decreases n,
{
    let e = x.exp as int;
    let u = pow2_real(-e);
    let q = u * u;
    let one2 = pow2((2 * e) as nat) as int;
    let first = estimate(x, 0);
    lemma_first_estimate(x);
    lemma_product_view(first, x);
    let y0 = first.value * x.value;
    lemma_real_mul_le(0real, u, u);
    assert(q >= 0real);
    lemma_real_mul_le(one2 as real, y0 as real, q);
    lemma_real_mul_le(y0 as real, (2 * one2) as real, q);
    assert((2 * one2) as real * q == 2real * (one2 as real * q)) by (nonlinear_arith);
    assert(y0 as real * q < 2real) by {
        // strictly below, as y0 < 2 * one2 and q > 0
        assert(q > 0real) by (nonlinear_arith)
            requires
                u > 0real,
                q == u * u,
        ;
        assert(y0 as real * q < (2 * one2) as real * q) by (nonlinear_arith)
            requires
                (y0 as real) < (2 * one2) as real,
                q > 0real,
        ;
    }
    if n > 0 {
        let r = estimate(x, (n - 1) as nat);
        let next = estimate(x, n);
        lemma_estimate_error(x, (n - 1) as nat);
        assert(next == step(r, x));
        lemma_step_stays_in_range(r, x);
        lemma_step_error(r, x);
        let err = 1real - x@ * r@;
        let b = error_bound(first_error(x), rounding_slack(x), (n - 1) as nat);
        lemma_real_square_le(err, b);
        let rho = x@ * r@;
        lemma_real_mul_le(rho, 2real, u);
        if x@ < 2real {
            lemma_real_mul_le(x@, 2real, u);
        } else {
            lemma_real_mul_le(2real, x@, u);
        }
        // the new estimate against x
        lemma_product_view(next, x);
        let y = next.value * x.value;
        assert(y >= 0) by (nonlinear_arith)
            requires
                y == next.value * x.value,
                next.value >= 0,
                x.value > 0,
        ;
        lemma_real_mul_le(0real, y as real, q);
        lemma_real_mul_le(y as real, (2 * one2) as real, q);
    }
}

/// The error of `reciprocal_with_iterations`: for an `x` in range, the
/// relative error `1 - x * result` is within the bound that starts at the
/// first error and is squared, with the rounding slack added, once for each
/// step taken.
pub proof fn lemma_reciprocal_error(x: Fixed32, iterations: u32)
    requires
        reciprocal_in_range(x),
    ensures
        0real <= first_error(x) < 1real,
        -error_bound(first_error(x), rounding_slack(x), iterations as nat) <= 1real - x@
            * x.reciprocal_with_iterations(iterations)@,
        1real - x@ * x.reciprocal_with_iterations(iterations)@ <= error_bound(
            first_error(x),
            rounding_slack(x),
            iterations as nat,
        ),
{
    lemma_estimate_error(x, iterations as nat);
}

/// One rung of the bound: from `b <= p + 2 * c` to
/// `b * b + c <= p * p + 2 * c`, where `p` is at most a sixteenth and `c` at
/// most an eighth.
proof fn lemma_bound_rung(b: real, p: real, c: real)
    requires
        0real <= b <= p + 2real * c,
        0real <= p,
        16real * p <= 1real,
        0real <= c,
        8real * c <= 1real,
    ensures
        0real <= b * b + c <= p * p + 2real * c,
{
    lemma_real_square_le(b, p + 2real * c);
    assert((p + 2real * c) * (p + 2real * c) == p * p + c * (4real * p + 4real * c))
        by (nonlinear_arith);
    lemma_real_mul_le(4real * p + 4real * c, 1real, c);
    assert((4real * p + 4real * c) * c == c * (4real * p + 4real * c)) by (nonlinear_arith);
}

/// The accuracy of `reciprocal` where the first estimate is good. For an
/// `x` in range whose first error is at most a half, which is so where the
/// bit below the mantissa's highest set bit is clear, and with a rounding
/// slack of at most an eighth, the relative error `1 - x * result` after the
/// five steps is at most `2^(-32)` and twice the slack, either way.
pub proof fn lemma_reciprocal_accuracy(x: Fixed32)
    requires
        reciprocal_in_range(x),
        2real * first_error(x) <= 1real,
        8real * rounding_slack(x) <= 1real,
    ensures
        -(pow2_real(-32) + 2real * rounding_slack(x)) <= 1real - x@ * x.reciprocal()@,
        1real - x@ * x.reciprocal()@ <= pow2_real(-32) + 2real * rounding_slack(x),
{
    let f = first_error(x);
    let c = rounding_slack(x);
    lemma_reciprocal_error(x, 5);
    lemma_pow2_real_pos(-(x.exp as int));
    assert(c >= 0real) by {
        lemma_real_mul_le(0real, 2real, pow2_real(-(x.exp as int)));
        if x@ >= 2real {
            lemma_real_mul_le(0real, x@, pow2_real(-(x.exp as int)));
        }
    }
    let b0 = error_bound(f, c, 0);
    let b1 = error_bound(f, c, 1);
    let b2 = error_bound(f, c, 2);
    let b3 = error_bound(f, c, 3);
    let b4 = error_bound(f, c, 4);
    let b5 = error_bound(f, c, 5);
    assert(b1 == b0 * b0 + c);
    assert(b2 == b1 * b1 + c);
    assert(b3 == b2 * b2 + c);
    assert(b4 == b3 * b3 + c);
    assert(b5 == b4 * b4 + c);
    let s1 = pow2_real(-2);
    let s2 = pow2_real(-4);
    let s3 = pow2_real(-8);
    let s4 = pow2_real(-16);
    let s5 = pow2_real(-32);
    lemma_pow2_real_adds(-1, -1);
    lemma_pow2_real_adds(-2, -2);
    lemma_pow2_real_adds(-4, -4);
    lemma_pow2_real_adds(-8, -8);
    lemma_pow2_real_adds(-16, -16);
    lemma_pow2_real_pos(-4);
    lemma_pow2_real_pos(-8);
    lemma_pow2_real_pos(-16);
    assert(pow2_real(-1) * 2real == 1real) by {
        lemma_pow2_real_inverse(-1);
        assert(pow2_real(1) == 2real) by {
            reveal_with_fuel(pow2_real, 2);
        }
    }
    assert(4real * s1 == 1real) by (nonlinear_arith)
        requires
            s1 == pow2_real(-1) * pow2_real(-1),
            pow2_real(-1) * 2real == 1real,
    ;
    // the first step has no rounding in what it starts from
    lemma_real_square_le(b0, pow2_real(-1));
    assert(0real <= b1 <= s1 + c);
    assert(16real * s2 == 1real) by (nonlinear_arith)
        requires
            s2 == s1 * s1,
            4real * s1 == 1real,
    ;
    lemma_real_square_le(b1, s1 + c);
    assert((s1 + c) * (s1 + c) == s1 * s1 + c * (2real * s1 + c)) by (nonlinear_arith);
    lemma_real_mul_le(2real * s1 + c, 1real, c);
    assert((2real * s1 + c) * c == c * (2real * s1 + c)) by (nonlinear_arith);
    assert(0real <= b2 <= s2 + 2real * c);
    lemma_bound_rung(b2, s2, c);
    assert(s3 <= s2) by (nonlinear_arith)
        requires
            s3 == s2 * s2,
            16real * s2 == 1real,
    ;
    lemma_bound_rung(b3, s3, c);
    assert(s4 <= s3) by (nonlinear_arith)
        requires
            s4 == s3 * s3,
            0real < s3 <= 1real,
    ;
    lemma_bound_rung(b4, s4, c);
}

/// The distance of a real number from zero.
pub open spec fn magnitude(a: real) -> real {
    if a >= 0real {
        a
    } else {
        -a
    }
}

/// A product with a factor near one is near the other factor: with `rho`
/// within `b` of 1, `a * rho` is within `magnitude(a) * b` of `a`.
proof fn lemma_near_one(a: real, rho: real, b: real)
    requires
        -b <= 1real - rho <= b,
    ensures
        -(magnitude(a) * b) <= a * rho - a <= magnitude(a) * b,
{
    let d = rho - 1real;
    let m = magnitude(a);
    lemma_real_mul_le(d, b, m);
    lemma_real_mul_le(-b, d, m);
    assert((-b) * m == -(m * b) && b * m == m * b) by (nonlinear_arith);
    if a >= 0real {
        assert(a * rho - a == d * m) by (nonlinear_arith)
            requires
                d == rho - 1real,
                m == a,
        ;
    } else {
        assert(a * rho - a == -(d * m)) by (nonlinear_arith)
            requires
                d == rho - 1real,
                m == -a,
        ;
    }
}

/// The error of a quotient. For a divisor `b` in range and a dividend `a` of
/// the same exponent, where the product with the reciprocal fits in 32
/// bits, the quotient `q` is found, and `q * b` differs from `a` by at most
/// the magnitude of `a` times the bound on the reciprocal's error, and below
/// by at most `b` units of the last place more.
pub proof fn lemma_div_error(a: Fixed32, b: Fixed32)
    requires
        a.exp == b.exp,
        reciprocal_in_range(b),
        fits_i32(scale(a.value * b.reciprocal().value, -a.exp)),
    ensures
        a.div(b) is Ok,
        a.div(b).unwrap().exp == a.exp,
        a.div(b).unwrap()@ * b@ - a@ <= magnitude(a@) * error_bound(
            first_error(b),
            rounding_slack(b),
            NEWTON_ITERATIONS as nat,
        ),
        a.div(b).unwrap()@ * b@ - a@ >= -(magnitude(a@) * error_bound(
            first_error(b),
            rounding_slack(b),
            NEWTON_ITERATIONS as nat,
        )) - b@ * pow2_real(-(a.exp as int)),
{
    let r = b.reciprocal();
    let q = a.div(b).unwrap();
    let u = pow2_real(-(a.exp as int));
    let bound = error_bound(first_error(b), rounding_slack(b), NEWTON_ITERATIONS as nat);
    lemma_estimate_error(b, NEWTON_ITERATIONS as nat);
    lemma_mul_rounds_down(a, r);
    lemma_pow2_real_pos(-(a.exp as int));
    assert(q == a.mul(r).unwrap());
    let rho = b@ * r@;
    lemma_near_one(a@, rho, bound);
    // b is positive
    let bv = (b.value as int) as real;
    lemma_real_mul_le(0real, bv, u);
    assert(b@ >= 0real);
    lemma_real_mul_le(q@, a@ * r@, b@);
    lemma_real_mul_le(a@ * r@, q@ + u, b@);
    assert((a@ * r@) * b@ == a@ * rho) by (nonlinear_arith)
        requires
            rho == b@ * r@,
    ;
    assert((q@ + u) * b@ == q@ * b@ + b@ * u) by (nonlinear_arith);
}

} // verus!
