//! Reconciling the exponents of two operands before they are added or
//! subtracted.

use vstd::prelude::*;

verus! {

/// What has to happen to two mantissas before they can be combined: the
/// operand with the smaller exponent is raised to the larger one by a left
/// shift, which loses nothing as long as the shifted mantissa still fits.
#[derive(Debug, Clone, Copy, PartialEq, Eq)]
pub enum Alignment {
    /// The exponents are equal: the mantissas combine as they are.
    Same,
    /// The left exponent is the larger: the right mantissa is shifted left.
    RaiseRight { by: u64 },
    /// The right exponent is the larger: the left mantissa is shifted left.
    RaiseLeft { by: u64 },
}

/// The larger of two exponents: the exponent of a sum or a difference.
pub open spec fn common_exp(lhs_exp: int, rhs_exp: int) -> int {
    if lhs_exp >= rhs_exp {
        lhs_exp
    } else {
        rhs_exp
    }
}

/// Decides which operand is raised, and by how many bits.
pub fn align(lhs_exp: i64, rhs_exp: i64) -> (a: Alignment)
    ensures
        match a {
            Alignment::Same => lhs_exp == rhs_exp,
            Alignment::RaiseRight { by } => lhs_exp > rhs_exp && by == lhs_exp - rhs_exp,
            Alignment::RaiseLeft { by } => lhs_exp < rhs_exp && by == rhs_exp - lhs_exp,
        },
{
    if lhs_exp == rhs_exp {
        Alignment::Same
    } else if lhs_exp > rhs_exp {
        Alignment::RaiseRight { by: (lhs_exp as i128 - rhs_exp as i128) as u64 }
    } else {
        Alignment::RaiseLeft { by: (rhs_exp as i128 - lhs_exp as i128) as u64 }
    }
}

} // verus!
