//! Handles into an arena.

use vstd::prelude::*;

verus! {

/// A handle to a value in an arena: the position of the slot that holds the
/// value, and the generation the slot had when the value was stored.
///
/// Two handles are equal exactly when both fields are equal.
#[derive(Clone, Copy, Debug, Hash, PartialEq, Eq, Structural)]
pub struct Index {
    pub slot: u32,
    pub generation: u32,
}

/// The 64-bit token of a handle: the slot position in the high 32 bits, the
/// generation in the low 32 bits.
pub open spec fn raw_token(slot: u32, generation: u32) -> int {
    slot * 0x1_0000_0000 + generation
}

impl Index {
    /// The handle as a single unsigned 64-bit number, for storage or
    /// transmission where the handle type itself cannot go.
    pub fn into_raw(&self) -> (raw: u64)
        ensures
            raw == raw_token(self.slot, self.generation),
            raw >> 32 == self.slot,
            raw & 0xffff_ffff == self.generation,
    {
        let hi: u64 = self.slot as u64;
        let lo: u64 = self.generation as u64;
        let raw: u64 = (hi << 32) | lo;
        assert(raw == hi * 0x1_0000_0000 + lo && raw >> 32 == hi && raw & 0xffff_ffff == lo)
            by (bit_vector)
            requires
                raw == (hi << 32) | lo,
                hi <= 0xffff_ffff,
                lo <= 0xffff_ffff,
        ;
        raw
    }
}

/// Distinct handles have distinct tokens: the token determines both fields.
pub proof fn lemma_raw_token_injective(a: Index, b: Index)
    ensures
        raw_token(a.slot, a.generation) == raw_token(b.slot, b.generation) <==> a == b,
{
}

} // verus!
