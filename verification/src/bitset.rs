//! A fixed-capacity set of small indices backed by one 64-bit word.

use vstd::prelude::*;

use crate::bits::bit64;

verus! {

/// A set of indices in `0 .. 64`: index `i` is a member exactly when bit `i`
/// of `state` is set.
pub struct BitSet {
    pub state: u64,
}

impl BitSet {
    /// The empty set.
    pub fn new() -> (r: Self)
        ensures
            r.state == 0,
    {
        BitSet { state: 0 }
    }

    /// Inserts `bit` into the set; a no-op if it is already a member.
    pub fn set(&mut self, bit: usize)
        requires
            bit < 64,
        ensures
            final(self).state == old(self).state | (1u64 << (bit as u64)),
            forall|i: u64|
                i < 64 ==> #[trigger] bit64(final(self).state, i) == (bit64(old(self).state, i)
                    || i == bit as u64),
    {
        proof {
            crate::bits::lemma_bit_or(self.state, bit as u64);
        }
        self.state = self.state | (1u64 << (bit as u64));
    }

    /// Removes `bit` from the set; a no-op if it is not a member.
    pub fn unset(&mut self, bit: usize)
        requires
            bit < 64,
        ensures
            final(self).state == old(self).state & !(1u64 << (bit as u64)),
            forall|i: u64|
                i < 64 ==> #[trigger] bit64(final(self).state, i) == (bit64(old(self).state, i)
                    && i != bit as u64),
    {
        proof {
            crate::bits::lemma_bit_clear(self.state, bit as u64);
        }
        self.state = self.state & !(1u64 << (bit as u64));
    }
}

} // verus!
