//! Words as numbers: the bits of a number, and the number that a row of
//! signals spells.

use vstd::prelude::*;
use vstd::arithmetic::power2::{lemma_pow2_unfold, pow2};
use vstd::bits::{lemma_u64_pow2_no_overflow, lemma_u64_shl_is_mul, lemma_u64_shr_is_div};
use crate::sim::LineState;

verus! {

/// Bit `i` of `value`, counting from the lowest.
pub open spec fn bit_of(value: u64, i: nat) -> bool {
    (value as nat / pow2(i)) % 2 == 1
}

/// The `count` lowest bits of `value`, lowest first.
pub open spec fn bits_of(value: u64, count: nat) -> Seq<bool> {
    Seq::new(count, |i: int| bit_of(value, i as nat))
}

/// Whether every signal of `states` is Low or High.
pub open spec fn binary(states: Seq<LineState>) -> bool {
    forall|i: int| 0 <= i < states.len() ==> (#[trigger] states[i]) == LineState::Low || states[i] == LineState::High
}

/// The number that `states` spells, lowest bit first: a High signal at
/// position `i` counts two to the power of `i`, any other signal nothing.
pub open spec fn spelled(states: Seq<LineState>) -> nat
    decreases states.len(),
{
    if states.len() == 0 {
        0
    } else {
        spelled(states.drop_last()) + if states.last() == LineState::High {
            pow2((states.len() - 1) as nat)
        } else {
            0
        }
    }
}

/// A row of signals spells a number below two to the power of its length.
pub proof fn lemma_spelled_bound(states: Seq<LineState>)
    ensures
        spelled(states) < pow2(states.len()),
    decreases states.len(),
{
    if states.len() == 0 {
        lemma_pow2_unfold(1);
        vstd::arithmetic::power2::lemma2_to64();
    } else {
        lemma_spelled_bound(states.drop_last());
        lemma_pow2_unfold(states.len());
    }
}

/// Whether bit `i` of `value` is set.
pub fn test_bit(value: u64, i: usize) -> (set: bool)
    requires
        i < 64,
    ensures
        set == bit_of(value, i as nat),
{
    let shift: u64 = i as u64;
    let mask: u64 = 1u64 << shift;
    proof {
        lemma_u64_shr_is_div(value, shift);
        assert(((value & (1u64 << shift)) != 0) == ((value >> shift) % 2 == 1)) by (bit_vector)
            requires
                shift < 64,
        ;
    }
    (value & mask) != 0
}

/// The number `accum` with bit `i` set, where `accum` has no bit at or
/// above `i`.
pub fn with_bit(accum: u64, i: usize) -> (sum: u64)
    requires
        i < 64,
        accum < pow2(i as nat),
    ensures
        sum == accum + pow2(i as nat),
{
    let shift: u64 = i as u64;
    proof {
        lemma_u64_pow2_no_overflow(i as nat);
        lemma_u64_shl_is_mul(1, shift);
        assert(1u64 << shift == pow2(i as nat));
        let bit = 1u64 << shift;
        assert(accum | bit == accum + bit) by (bit_vector)
            requires
                shift < 64,
                bit == 1u64 << shift,
                accum < bit,
        ;
    }
    accum | (1u64 << shift)
}

} // verus!
