//! The highest set bit of a mantissa: a whole estimate of its binary
//! logarithm.

use vstd::arithmetic::power2::{
    lemma2_to64, lemma_pow2_pos, lemma_pow2_strictly_increases, lemma_pow2_unfold, pow2,
};
use vstd::prelude::*;

verus! {

/// The 31 bits of a 32-bit word below its sign bit, as a number.
pub open spec fn low31(v: i32) -> nat {
    if v >= 0 {
        v as nat
    } else {
        (v + 0x8000_0000) as nat
    }
}

/// The index of the highest set bit of `m`, counted from bit 0: the whole
/// part of its binary logarithm. It is 0 for 0, which has no set bit.
pub open spec fn floor_log2(m: nat) -> nat
    decreases m,
{
    if m <= 1 {
        0
    } else {
        1 + floor_log2(m / 2)
    }
}

/// A positive number lies between the power of two at its highest set bit
/// and the next one.
pub proof fn lemma_floor_log2_bounds(m: nat)
    requires
        m >= 1,
    ensures
        pow2(floor_log2(m)) <= m < pow2(floor_log2(m) + 1),
    decreases m,
{
    lemma2_to64();
    if m > 1 {
        lemma_floor_log2_bounds(m / 2);
        lemma_pow2_unfold(floor_log2(m));
        lemma_pow2_unfold(floor_log2(m) + 1);
    }
}

/// The highest set bit below the sign bit of a 32-bit word is at most bit 30.
pub proof fn lemma_floor_log2_word(v: i32)
    ensures
        floor_log2(low31(v)) <= 30,
{
    let m = low31(v);
    let k = floor_log2(m);
    lemma2_to64();
    if m >= 1 {
        lemma_floor_log2_bounds(m);
        if k > 31 {
            lemma_pow2_strictly_increases(31, k);
        }
    }
}

/// The highest set bit is the only index whose power of two and the next
/// one enclose the number.
pub proof fn lemma_floor_log2_unique(m: nat, k: nat)
    requires
        pow2(k) <= m < pow2(k + 1),
    ensures
        floor_log2(m) == k,
    decreases k,
{
    lemma2_to64();
    if k == 0 {
        assert(m == 1);
    } else {
        lemma_pow2_unfold(k);
        lemma_pow2_unfold(k + 1);
        lemma_pow2_pos((k - 1) as nat);
        lemma_floor_log2_unique(m / 2, (k - 1) as nat);
    }
}

} // verus!
