//! Bit-level view of a 64-bit word as a set of indices, with the bitwise
//! facts the rest of the crate needs.

use vstd::prelude::*;

verus! {

/// The number of usable bit positions in one word: sets and adjacency masks
/// hold indices `0 .. 64`.
pub const WORD_BITS: usize = 64;

/// Bit `i` of the word `s`, for `i < 64`.
pub open spec fn bit64(s: u64, i: u64) -> bool {
    (s >> i) & 1u64 == 1u64
}

/// Setting bit `j` leaves every other bit alone and turns bit `j` on.
pub proof fn lemma_bit_or(s: u64, j: u64)
    by (bit_vector)
    requires
        j < 64,
    ensures
        forall|i: u64| i < 64 ==> #[trigger] bit64(s | (1u64 << j), i) == (bit64(s, i) || i == j),
{
}

/// Clearing bit `j` leaves every other bit alone and turns bit `j` off.
pub proof fn lemma_bit_clear(s: u64, j: u64)
    by (bit_vector)
    requires
        j < 64,
    ensures
        forall|i: u64| i < 64 ==> #[trigger] bit64(s & !(1u64 << j), i) == (bit64(s, i) && i != j),
{
}

/// The bits of `a & !b` are the bits of `a` that are clear in `b`.
pub proof fn lemma_bit_diff(a: u64, b: u64)
    by (bit_vector)
    ensures
        forall|i: u64| i < 64 ==> #[trigger] bit64(a & !b, i) == (bit64(a, i) && !bit64(b, i)),
{
}

/// The zero word has no bits set.
pub proof fn lemma_bit_zero()
    by (bit_vector)
    ensures
        forall|i: u64| i < 64 ==> !(#[trigger] bit64(0u64, i)),
{
}

/// Setting a clear bit and clearing it again restores the original word.
pub proof fn lemma_bit_set_then_clear(s: u64, j: u64)
    by (bit_vector)
    requires
        j < 64,
        !bit64(s, j),
    ensures
        (s | (1u64 << j)) & !(1u64 << j) == s,
{
}

/// Clearing a set bit makes the word strictly smaller.
pub proof fn lemma_bit_clear_decreases(s: u64, j: u64)
    by (bit_vector)
    requires
        j < 64,
        bit64(s, j),
    ensures
        (s & !(1u64 << j)) < s,
{
}

} // verus!
