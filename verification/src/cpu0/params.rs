//! The dimensions of the processor.

use vstd::prelude::*;

verus! {

/// The dimensions of the processor.
#[derive(Debug, Clone, Copy, PartialEq, Eq, Structural)]
pub struct Params {
    /// The number of bits of a word.
    pub word_bits: usize,
    /// The number of select lines of the register bank: it holds two to
    /// this power of registers.
    pub log_register_count: usize,
}

} // verus!
