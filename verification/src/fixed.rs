//! The fixed-point number and its arithmetic.

use crate::align::{align, common_exp, Alignment};
use crate::arith::{
    lemma_scale_zero, lemma_shl_wraps, lemma_wrap32_add, lemma_wrap32_range, lemma_wrap32_sub,
    scale, shift_wrapped, wrap32,
};
use crate::log2::{floor_log2, lemma_floor_log2_unique, low31};
use crate::reals::pow2_real;
use vstd::arithmetic::power2::{
    lemma2_to64, lemma_pow2_strictly_increases, lemma_pow2_unfold, pow2,
};
use vstd::prelude::*;

verus! {

/// A fixed-point number: the rational `value / 2^exp`.
///
/// Nothing is demanded of the pair. The exponent may be negative, and two
/// numbers need not share one. Mantissas are 32-bit words: a result too large
/// for one wraps around, and it is for the caller to keep the true value in
/// range.
#[derive(Debug, Clone, Copy)]
pub struct Fixed32 {
    /// The mantissa: the represented number scaled by `2^exp`.
    pub value: i32,
    /// The binary scale: how many of the mantissa's low bits are fractional.
    pub exp: i32,
}

impl View for Fixed32 {
    type V = real;

    /// The number that the pair stands for: `value * 2^(-exp)`.
    open spec fn view(&self) -> real {
        (self.value as int) as real * pow2_real(-(self.exp as int))
    }
}

/// Why a product or a quotient was not computed.
#[derive(Debug, Clone, Copy, PartialEq, Eq)]
pub enum Fault {
    /// The two operands do not have the same exponent.
    ExponentMismatch,
    /// The divisor's mantissa is zero.
    DivisionByZero,
}

/// The mantissa of the product of two mantissas of exponent `exp`: the exact
/// product, brought back from exponent `2 * exp` to `exp` rounding down, and
/// wrapped to 32 bits.
pub open spec fn mul_value(a: int, b: int, exp: int) -> i32 {
    wrap32(scale(a * b, -exp))
}

/// The mantissa of the number 2 at exponent `exp`, wrapped to 32 bits.
pub open spec fn two_value(exp: int) -> i32 {
    wrap32(scale(1, exp + 1))
}

/// One Newton-Raphson step towards the reciprocal of `x`: from the estimate
/// `r` to `r * (2 - r * x)`, each product and the difference computed on
/// mantissas of exponent `exp`.
pub open spec fn newton_step(r: i32, x: i32, exp: i32) -> i32 {
    let rx = mul_value(r as int, x as int, exp as int);
    mul_value(r as int, wrap32(two_value(exp as int) - rx) as int, exp as int)
}

/// The estimate after `n` Newton-Raphson steps from `guess`.
pub open spec fn newton(guess: i32, x: i32, exp: i32, n: nat) -> i32
    decreases n,
{
    if n == 0 {
        guess
    } else {
        newton_step(newton(guess, x, exp, (n - 1) as nat), x, exp)
    }
}

/// How many Newton-Raphson steps `reciprocal` and `div` take.
pub const NEWTON_ITERATIONS: u32 = 5;

impl Fixed32 {
    /// The mantissa that stands for this number at exponent `e`. It is exact
    /// where `e` is at least the number's own exponent.
    pub open spec fn scaled_to(self, e: int) -> int {
        scale(self.value as int, e - self.exp)
    }

    /// The sum: at the larger of the two exponents, the wrapped sum of both
    /// mantissas raised to it.
    pub open spec fn spec_add(self, other: Fixed32) -> Fixed32 {
        let e = common_exp(self.exp as int, other.exp as int);
        Fixed32 { value: wrap32(self.scaled_to(e) + other.scaled_to(e)), exp: e as i32 }
    }

    /// The difference: at the larger of the two exponents, the wrapped
    /// difference of both mantissas raised to it.
    pub open spec fn spec_sub(self, other: Fixed32) -> Fixed32 {
        let e = common_exp(self.exp as int, other.exp as int);
        Fixed32 { value: wrap32(self.scaled_to(e) - other.scaled_to(e)), exp: e as i32 }
    }

    /// The product of two numbers of one exponent, at that exponent; a fault
    /// where the exponents differ.
    pub open spec fn spec_mul(self, other: Fixed32) -> Result<Fixed32, Fault> {
        if self.exp != other.exp {
            Err(Fault::ExponentMismatch)
        } else {
            Ok(
                Fixed32 {
                    value: mul_value(self.value as int, other.value as int, self.exp as int),
                    exp: self.exp,
                },
            )
        }
    }

    /// The index of the highest set bit of the mantissa below its sign bit.
    pub open spec fn spec_leading_one_index(self) -> i32 {
        floor_log2(low31(self.value)) as i32
    }

    /// The first estimate of the reciprocal: `2^(2 * exp - k)`, where `k` is
    /// the index of the mantissa's highest set bit, wrapped to 32 bits. For a
    /// positive mantissa it lies between the reciprocal and its double. It is
    /// 0 where `2 * exp - k` is negative or above 31, and negative at 31.
    pub open spec fn initial_guess(self) -> i32 {
        wrap32(scale(1, 2 * self.exp - self.spec_leading_one_index()))
    }

    /// The reciprocal as `iterations` Newton-Raphson steps from the first
    /// estimate give it, at the number's own exponent.
    pub open spec fn spec_reciprocal_with_iterations(self, iterations: u32) -> Fixed32 {
        Fixed32 {
            value: newton(self.initial_guess(), self.value, self.exp, iterations as nat),
            exp: self.exp,
        }
    }

    /// The reciprocal after the default number of steps.
    pub open spec fn spec_reciprocal(self) -> Fixed32 {
        self.spec_reciprocal_with_iterations(NEWTON_ITERATIONS)
    }

    /// The quotient: the dividend times the reciprocal of the divisor; a
    /// fault where the exponents differ or the divisor is zero.
    pub open spec fn spec_div(self, other: Fixed32) -> Result<Fixed32, Fault> {
        if self.exp != other.exp {
            Err(Fault::ExponentMismatch)
        } else if other.value == 0 {
            Err(Fault::DivisionByZero)
        } else {
            self.spec_mul(other.spec_reciprocal())
        }
    }

    /// Stores the pair as given.
    pub fn new(value: i32, exp: i32) -> (r: Self)
        ensures
            r.value == value,
            r.exp == exp,
    {
        Self { value, exp }
    }

    /// Finds the highest set bit of the mantissa, counted from bit 0: a whole
    /// estimate of the binary logarithm of a positive mantissa. The sign bit
    /// is not looked at, and a mantissa with no other bit set gives 0.
    #[verifier::when_used_as_spec(spec_leading_one_index)]
    pub fn get_leading_one_index(self) -> (r: i32)
        ensures
            r == self.spec_leading_one_index(),
            0 <= r <= 30,
            self.value > 0 ==> pow2(r as nat) <= self.value < pow2((r + 1) as nat),
    {
        let value = self.value;
        let ghost low = low31(value);
        proof {
            lemma2_to64();
            assert((value & 0x7fff_ffffi32) as int == if value >= 0 {
                value as int
            } else {
                value + 0x8000_0000
            }) by (bit_vector);
        }
        let mut i: u32 = 31;
        while i > 0
            invariant
                i <= 31,
                value == self.value,
                low == low31(value),
                low == value & 0x7fff_ffffi32,
                low < pow2((i + 1) as nat),
            decreases i,
        {
            let bit: i32 = 1i32 << i;
            proof {
                lemma2_to64();
                lemma_pow2_unfold((i + 1) as nat);
            }
            if bit & value > 0 {
                proof {
                    assert(i < 31) by {
                        assert(((1i32 << 31u32) & value) <= 0) by (bit_vector);
                    }
                    lemma_bit_is_pow2(i);
                    let masked = value & 0x7fff_ffffi32;
                    assert(masked >= bit) by (bit_vector)
                        requires
                            bit & value > 0,
                            bit == 1i32 << i,
                            i < 31,
                            masked == value & 0x7fff_ffffi32,
                    ;
                    lemma_floor_log2_unique(low, i as nat);
                }
                return i as i32;
            }
            proof {
                if i < 31 {
                    lemma_bit_is_pow2(i);
                    let masked = value & 0x7fff_ffffi32;
                    assert(masked < bit) by (bit_vector)
                        requires
                            !(bit & value > 0),
                            bit == 1i32 << i,
                            0 < i < 31,
                            masked == value & 0x7fff_ffffi32,
                            0 <= masked < 2 * bit,
                    ;
                }
            }
            i -= 1;
        }
        0
    }

    /// Adds two numbers, whatever their exponents.
    ///
    /// The operand with the smaller exponent is shifted left to the larger
    /// one, so nothing is rounded. The result wraps where the aligned sum does
    /// not fit in 32 bits.
    #[verifier::when_used_as_spec(spec_add)]
    pub fn add(self, other: Fixed32) -> (r: Fixed32)
        ensures
            r == self.spec_add(other),
            r.exp == common_exp(self.exp as int, other.exp as int),
            r.value == wrap32(self.scaled_to(r.exp as int) + other.scaled_to(r.exp as int)),
    {
        proof {
            lemma_scale_zero(self.value as int);
            lemma_scale_zero(other.value as int);
        }
        match align(self.exp as i64, other.exp as i64) {
            Alignment::Same => {
                proof {
                    lemma_wrap32_range(self.value + other.value);
                }
                Fixed32::new(self.value.wrapping_add(other.value), self.exp)
            },
            Alignment::RaiseRight { by } => {
                let raised = shift_wrapped(other.value as i64, by as i64);
                proof {
                    lemma_wrap32_add(self.value as int, other.value * pow2(by as nat));
                    lemma_wrap32_range(self.value + raised);
                }
                Fixed32::new(self.value.wrapping_add(raised), self.exp)
            },
            Alignment::RaiseLeft { by } => {
                let raised = shift_wrapped(self.value as i64, by as i64);
                proof {
                    lemma_wrap32_add(self.value * pow2(by as nat), other.value as int);
                    lemma_wrap32_range(raised + other.value);
                }
                Fixed32::new(raised.wrapping_add(other.value), other.exp)
            },
        }
    }

    /// Subtracts `other` from this number, whatever their exponents.
    ///
    /// The operand with the smaller exponent is shifted left to the larger
    /// one, so nothing is rounded. The result wraps where the aligned
    /// difference does not fit in 32 bits.
    #[verifier::when_used_as_spec(spec_sub)]
    pub fn sub(self, other: Fixed32) -> (r: Fixed32)
        ensures
            r == self.spec_sub(other),
            r.exp == common_exp(self.exp as int, other.exp as int),
            r.value == wrap32(self.scaled_to(r.exp as int) - other.scaled_to(r.exp as int)),
    {
        proof {
            lemma_scale_zero(self.value as int);
            lemma_scale_zero(other.value as int);
        }
        match align(self.exp as i64, other.exp as i64) {
            Alignment::Same => {
                proof {
                    lemma_wrap32_range(self.value - other.value);
                }
                Fixed32::new(self.value.wrapping_sub(other.value), self.exp)
            },
            Alignment::RaiseRight { by } => {
                let raised = shift_wrapped(other.value as i64, by as i64);
                proof {
                    lemma_wrap32_sub(self.value as int, other.value * pow2(by as nat));
                    lemma_wrap32_range(self.value - raised);
                }
                Fixed32::new(self.value.wrapping_sub(raised), self.exp)
            },
            Alignment::RaiseLeft { by } => {
                let raised = shift_wrapped(self.value as i64, by as i64);
                proof {
                    lemma_wrap32_sub(self.value * pow2(by as nat), other.value as int);
                    lemma_wrap32_range(raised - other.value);
                }
                Fixed32::new(raised.wrapping_sub(other.value), other.exp)
            },
        }
    }

    /// Multiplies two numbers of one exponent.
    ///
    /// The mantissas are multiplied in 64 bits, the product is shifted right
    /// by the exponent, which rounds down, and narrowed to 32 bits. Operands
    /// of different exponents are refused.
    #[verifier::when_used_as_spec(spec_mul)]
    pub fn mul(self, other: Fixed32) -> (r: Result<Fixed32, Fault>)
        ensures
            r == self.spec_mul(other),
            r is Ok <==> self.exp == other.exp,
            r is Err ==> r == Err::<Fixed32, Fault>(Fault::ExponentMismatch),
            r is Ok ==> r.unwrap().exp == self.exp && r.unwrap().value == wrap32(
                scale(self.value * other.value, -self.exp),
            ),
    {
        if self.exp != other.exp {
            return Err(Fault::ExponentMismatch);
        }
        Ok(Fixed32::new(mul_mantissas(self.value, other.value, self.exp), self.exp))
    }

    /// Approximates the reciprocal by Newton-Raphson iteration, with
    /// `NEWTON_ITERATIONS` steps.
    ///
    /// See `reciprocal_with_iterations` for what is computed.
    #[verifier::when_used_as_spec(spec_reciprocal)]
    pub fn reciprocal(self) -> (r: Fixed32)
        ensures
            r == self.spec_reciprocal(),
    {
        self.reciprocal_with_iterations(NEWTON_ITERATIONS)
    }

    /// Approximates the reciprocal by `iterations` Newton-Raphson steps.
    ///
    /// The first estimate is a power of two found from the mantissa's highest
    /// set bit, without a division: `2^(2 * exp - k)` for the highest set bit
    /// `k`, which for a positive mantissa lies between the reciprocal and its
    /// double. Each step replaces the estimate `r` by `r * (2 - r * x)`,
    /// multiplying as `mul` does. Every step is taken: there is no test for
    /// convergence.
    ///
    /// Nothing is refused. Intermediate results wrap to 32 bits. Where
    /// `2 * exp - k` is negative or above 31 the first estimate is 0, and 0
    /// is returned. Of a mantissa that is not positive only the bits below
    /// the sign bit are looked at, so the result is of no use.
    #[verifier::when_used_as_spec(spec_reciprocal_with_iterations)]
    pub fn reciprocal_with_iterations(self, iterations: u32) -> (r: Fixed32)
        ensures
            r == self.spec_reciprocal_with_iterations(iterations),
    {
        let leading_one_index = self.get_leading_one_index();
        let guess = shift_wrapped(1, 2 * (self.exp as i64) - leading_one_index as i64);
        let two = shift_wrapped(1, self.exp as i64 + 1);
        let mut result = guess;
        let mut done: u32 = 0;
        while done < iterations
            invariant
                done <= iterations,
                two == two_value(self.exp as int),
                result == newton(self.initial_guess(), self.value, self.exp, done as nat),
            decreases iterations - done,
        {
            let t1 = mul_mantissas(result, self.value, self.exp);
            let t2 = two.wrapping_sub(t1);
            proof {
                lemma_wrap32_range(two - t1);
            }
            result = mul_mantissas(result, t2, self.exp);
            done += 1;
        }
        Fixed32::new(result, self.exp)
    }

    /// Divides this number by `other`, of the same exponent, as the product
    /// with the reciprocal of `other`.
    ///
    /// Operands of different exponents are refused, and so is a divisor whose
    /// mantissa is zero.
    #[verifier::when_used_as_spec(spec_div)]
    pub fn div(self, other: Fixed32) -> (r: Result<Fixed32, Fault>)
        ensures
            r == self.spec_div(other),
            r is Ok <==> self.exp == other.exp && other.value != 0,
            r == Err::<Fixed32, Fault>(Fault::ExponentMismatch) <==> self.exp != other.exp,
            r == Err::<Fixed32, Fault>(Fault::DivisionByZero) <==> self.exp == other.exp
                && other.value == 0,
    {
        if self.exp != other.exp {
            return Err(Fault::ExponentMismatch);
        }
        if other.value == 0 {
            return Err(Fault::DivisionByZero);
        }
        self.mul(other.reciprocal())
    }
}

/// Bit `i` of a 32-bit word, below the sign bit, is `2^i`.
proof fn lemma_bit_is_pow2(i: u32)
    requires
        i < 31,
    ensures
        1i32 << i == pow2(i as nat),
{
    lemma_shl_wraps(1i32, i);
    lemma2_to64();
    if i < 30 {
        lemma_pow2_strictly_increases(i as nat, 30);
    }
    assert(1 * pow2(i as nat) == pow2(i as nat));
    lemma_wrap32_range(pow2(i as nat) as int);
}

/// Multiplies two mantissas of exponent `exp`.
fn mul_mantissas(a: i32, b: i32, exp: i32) -> (r: i32)
    ensures
        r == mul_value(a as int, b as int, exp as int),
{
    assert(-0x4000_0000_0000_0000 <= a * b <= 0x4000_0000_0000_0000) by (nonlinear_arith)
        requires
            -0x8000_0000 <= a <= 0x8000_0000,
            -0x8000_0000 <= b <= 0x8000_0000,
    ;
    let product: i64 = (a as i64) * (b as i64);
    shift_wrapped(product, -(exp as i64))
}

} // verus!
