//! Single-bit views of a 64-bit word, and the facts about shifting,
//! masking and or-ing that the bit-parallel matchers rest on.

use vstd::prelude::*;

verus! {

/// Bit `b` of the word `x`.
pub open spec fn bit64(x: u64, b: u64) -> bool {
    (x >> b) & 1u64 == 1u64
}

/// The zero word has no bit set.
pub proof fn lemma_bit_zero(b: u64)
    requires
        b < 64,
    ensures
        !bit64(0u64, b),
{
    assert(!((0u64 >> b) & 1u64 == 1u64)) by (bit_vector);
}

/// Or-ing in a single-bit mask sets exactly that bit.
pub proof fn lemma_bit_or_set(x: u64, j: u64, b: u64)
    requires
        j < 64,
        b < 64,
    ensures
        bit64(x | (1u64 << j), b) <==> (bit64(x, b) || b == j),
{
    assert(bit64(x | (1u64 << j), b) <==> (bit64(x, b) || b == j)) by (bit_vector)
        requires
            j < 64,
            b < 64,
    ;
}

/// Bit 0 after the automaton step `((x << 1) | 1) & y` is bit 0 of `y`.
pub proof fn lemma_step_bit_low(x: u64, y: u64)
    ensures
        bit64(((x << 1u64) | 1u64) & y, 0) <==> bit64(y, 0),
{
    assert(bit64(((x << 1u64) | 1u64) & y, 0) <==> bit64(y, 0)) by (bit_vector);
}

/// Bit `b >= 1` after the automaton step `((x << 1) | 1) & y` combines
/// bit `b - 1` of `x` with bit `b` of `y`.
pub proof fn lemma_step_bit(x: u64, y: u64, b: u64)
    requires
        1 <= b < 64,
    ensures
        bit64(((x << 1u64) | 1u64) & y, b) <==> (bit64(x, (b - 1) as u64) && bit64(y, b)),
{
    assert(bit64(((x << 1u64) | 1u64) & y, b) <==> (bit64(x, (b - 1) as u64) && bit64(y, b)))
        by (bit_vector)
        requires
            1 <= b < 64,
    ;
}

/// Bit `b` of a conjunction of two words.
pub proof fn lemma_bit_and(x: u64, y: u64, b: u64)
    requires
        b < 64,
    ensures
        bit64(x & y, b) <==> (bit64(x, b) && bit64(y, b)),
{
    assert(bit64(x & y, b) <==> (bit64(x, b) && bit64(y, b))) by (bit_vector)
        requires
            b < 64,
    ;
}

/// Bit 0 of a left-shifted word is clear.
pub proof fn lemma_shl_bit_low(x: u64)
    ensures
        !bit64(x << 1u64, 0),
{
    assert(!bit64(x << 1u64, 0)) by (bit_vector);
}

/// Bit `b >= 1` of `x << 1` is bit `b - 1` of `x`.
pub proof fn lemma_shl_bit(x: u64, b: u64)
    requires
        1 <= b < 64,
    ensures
        bit64(x << 1u64, b) <==> bit64(x, (b - 1) as u64),
{
    assert(bit64(x << 1u64, b) <==> bit64(x, (b - 1) as u64)) by (bit_vector)
        requires
            1 <= b < 64,
    ;
}

/// Testing a word against a single-bit mask reads exactly that bit, and a
/// set bit makes the masked value the mask itself.
pub proof fn lemma_accept_test(x: u64, j: u64)
    requires
        j < 64,
    ensures
        (x & (1u64 << j) != 0) <==> bit64(x, j),
        bit64(x, j) ==> x & (1u64 << j) == 1u64 << j,
{
    assert((x & (1u64 << j) != 0) <==> bit64(x, j)) by (bit_vector)
        requires
            j < 64,
    ;
    assert(bit64(x, j) ==> x & (1u64 << j) == 1u64 << j) by (bit_vector)
        requires
            j < 64,
    ;
}

/// A word whose `k` lowest bits are all clear vanishes under the mask of
/// its `k` lowest bits.
proof fn lemma_low_bits_clear(x: u64, k: u64)
    requires
        k <= 64,
        forall|b: u64| b < k ==> !bit64(x, b),
    ensures
        x & (u64::MAX >> ((64 - k) as u64)) == 0,
    decreases k,
{
    if k == 0 {
        assert(x & (0xffff_ffff_ffff_ffffu64 >> 64u64) == 0) by (bit_vector);
    } else {
        lemma_low_bits_clear(x, (k - 1) as u64);
        assert(!bit64(x, (k - 1) as u64));
        assert((x & (0xffff_ffff_ffff_ffffu64 >> ((65 - k) as u64)) == 0 && !bit64(
            x,
            (k - 1) as u64,
        )) ==> x & (0xffff_ffff_ffff_ffffu64 >> ((64 - k) as u64)) == 0) by (bit_vector)
            requires
                1 <= k <= 64,
        ;
    }
}

/// A word none of whose 64 bits is set is zero.
pub proof fn lemma_bits_clear_zero(x: u64)
    requires
        forall|b: u64| b < 64 ==> !bit64(x, b),
    ensures
        x == 0,
{
    lemma_low_bits_clear(x, 64);
    assert(x & (0xffff_ffff_ffff_ffffu64 >> 0u64) == x) by (bit_vector);
}

/// The word `u64::MAX >> (64 - m)` has exactly its `m` lowest bits set.
pub proof fn lemma_low_ones(m: u64, b: u64)
    requires
        1 <= m <= 64,
        b < 64,
    ensures
        bit64(u64::MAX >> ((64 - m) as u64), b) <==> b < m,
{
    assert(bit64(0xffff_ffff_ffff_ffffu64 >> ((64 - m) as u64), b) <==> b < m) by (bit_vector)
        requires
            1 <= m <= 64,
            b < 64,
    ;
}

} // verus!
