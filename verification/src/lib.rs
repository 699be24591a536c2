//! Binary fixed-point arithmetic on 32-bit mantissas.
//!
//! A [`fixed::Fixed32`] is a mantissa and an exponent, and stands for
//! `value * 2^(-exp)`. Sums and differences align the exponents and are
//! exact; products are rounded down to the operands' exponent; quotients are
//! products with a reciprocal that Newton-Raphson steps approximate.
//! Mantissas wrap around where a result does not fit in 32 bits.
//!
//! - [`fixed`]: the number, its operations and what each returns.
//! - [`align`]: which operand of a sum is shifted, and by how much.
//! - [`arith`]: wraparound and scaling by powers of two.
//! - [`log2`]: the highest set bit of a mantissa.
//! - [`reals`]: the real numbers that mantissas stand for.
//! - [`laws`]: what holds of the operations on every input.
//! - [`newton`]: how fast the reciprocal converges.

pub mod align;
pub mod arith;
pub mod fixed;
pub mod laws;
pub mod log2;
pub mod newton;
pub mod reals;
