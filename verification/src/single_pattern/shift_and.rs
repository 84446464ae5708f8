//! The Shift-And algorithm: a nondeterministic prefix automaton is kept as
//! the bits of one 64-bit word and advanced by shift, or and mask once per
//! text byte.

use vstd::prelude::*;

use crate::single_pattern::bits::bit64;
use crate::single_pattern::bits::lemma_accept_test;
use crate::single_pattern::bits::lemma_bit_or_set;
use crate::single_pattern::bits::lemma_bit_zero;
use crate::single_pattern::bits::lemma_step_bit;
use crate::single_pattern::bits::lemma_step_bit_low;
use crate::single_pattern::occurrences::is_match_at;
use crate::single_pattern::occurrences::is_occurrence_list;

verus! {

/// Entry `v` of the mask table has bit `b` set iff pattern position `b`
/// holds the byte value `v`.
pub(crate) open spec fn masks_ok(masks: Seq<u64>, pattern: Seq<u8>) -> bool {
    &&& masks.len() == 256
    &&& forall|v: u8, b: u64|
        b < 64 ==> (#[trigger] bit64(masks[v as int], b) <==> (b < pattern.len()
            && pattern[b as int] == v))
}

/// The first `len` pattern bytes equal the `len` text bytes that end
/// (exclusively) at position `end`.
pub(crate) open spec fn prefix_ends_at(
    pattern: Seq<u8>,
    text: Seq<u8>,
    len: int,
    end: int,
) -> bool {
    &&& 1 <= len <= pattern.len()
    &&& len <= end <= text.len()
    &&& forall|k: int| 0 <= k < len ==> text[end - len + k] == pattern[k]
}

/// A full-length prefix ending at `end` is exactly an occurrence starting
/// at `end - m`.
pub(crate) proof fn lemma_full_prefix_is_match(pattern: Seq<u8>, text: Seq<u8>, end: int)
    requires
        pattern.len() >= 1,
        0 <= end <= text.len(),
    ensures
        prefix_ends_at(pattern, text, pattern.len() as int, end) <==> is_match_at(
            pattern,
            text,
            end - pattern.len(),
        ),
{
    let m = pattern.len() as int;
    if is_match_at(pattern, text, end - m) {
        assert forall|k: int| 0 <= k < m implies text[end - m + k] == pattern[k] by {
            assert(text[(end - m) + k] == pattern[k]);
        }
    }
}

/// Builds the mask table used by Shift-And (and, on the reversed pattern,
/// by BNDM): for every byte value one 64-bit word whose bit `b` is set iff
/// pattern position `b` holds that byte.  Also returns the constant `1`
/// injected as a fresh start state each step, and the accept mask, the
/// single bit `1 << (m - 1)`.
pub(crate) fn shift_and_single_masks(pattern: &[u8]) -> (r: (Vec<u64>, u64, u64))
    requires
        1 <= pattern@.len() <= 64,
    ensures
        masks_ok(r.0@, pattern@),
        r.1 == 1u64,
        r.2 == 1u64 << ((pattern@.len() - 1) as u64),
{
    let m = pattern.len();
    let mut masks: Vec<u64> = Vec::new();

    let mut v: usize = 0;
    while v < 256
        invariant
            masks@.len() == v,
            v <= 256,
            forall|c: int| 0 <= c < v ==> masks@[c] == 0u64,
        decreases 256 - v,
    {
        masks.push(0);
        v += 1;
    }

    proof {
        assert forall|c: u8, b: u64| b < 64 implies !bit64(masks@[c as int], b) by {
            lemma_bit_zero(b);
        }
    }

    let mut j: usize = 0;
    while j < m
        invariant
            m == pattern@.len(),
            1 <= m <= 64,
            j <= m,
            masks@.len() == 256,
            forall|c: u8, b: u64|
                b < 64 ==> (#[trigger] bit64(masks@[c as int], b) <==> (b < j
                    && pattern@[b as int] == c)),
        decreases m - j,
    {
        let c = pattern[j];
        let ghost old_masks = masks@;
        masks[c as usize] = masks[c as usize] | (1u64 << (j as u64));
        proof {
            assert forall|cc: u8, b: u64| b < 64 implies (#[trigger] bit64(
                masks@[cc as int],
                b,
            ) <==> (b < j + 1 && pattern@[b as int] == cc)) by {
                if cc == c {
                    lemma_bit_or_set(old_masks[cc as int], j as u64, b);
                } else {
                    assert(masks@[cc as int] == old_masks[cc as int]);
                }
            }
        }
        j += 1;
    }

    let accept = 1u64 << ((m - 1) as u64);
    (masks, 1, accept)
}

/// Runs the Shift-And automaton over the text and collects every position
/// at which an occurrence ends, paired with the (always single-bit) accept
/// state that reported it.
fn shift_and_with_masks(
    text: &[u8],
    masks: &Vec<u64>,
    ones: u64,
    accept: u64,
    pattern: Ghost<Seq<u8>>,
) -> (res: Vec<(usize, u64)>)
    requires
        1 <= pattern@.len() <= 64,
        masks_ok(masks@, pattern@),
        ones == 1u64,
        accept == 1u64 << ((pattern@.len() - 1) as u64),
    ensures
        forall|a: int|
            0 <= a < res@.len() ==> is_match_at(
                pattern@,
                text@,
                #[trigger] (res@[a]).0 + 1 - pattern@.len(),
            ),
        forall|a: int| 0 <= a < res@.len() ==> (#[trigger] res@[a]).1 == accept,
        forall|a: int, b: int| 0 <= a < b < res@.len() ==> (res@[a]).0 < (res@[b]).0,
        forall|a: int| 0 <= a < res@.len() ==> (#[trigger] res@[a]).0 < text@.len(),
        forall|s: int|
            #[trigger] is_match_at(pattern@, text@, s) ==> exists|a: int|
                0 <= a < res@.len() && (#[trigger] res@[a]).0 == s + pattern@.len() - 1,
{
    let ghost pat = pattern@;
    let ghost m = pat.len() as int;
    let mut res: Vec<(usize, u64)> = Vec::new();
    let mut active: u64 = 0;
    let n = text.len();
    let mut i: usize = 0;

    proof {
        assert forall|b: u64| b < 64 implies !bit64(active, b) by {
            lemma_bit_zero(b);
        }
    }

    while i < n
        invariant
            1 <= m <= 64,
            m == pat.len(),
            n == text@.len(),
            masks_ok(masks@, pat),
            ones == 1u64,
            accept == 1u64 << ((m - 1) as u64),
            i <= n,
            forall|b: u64|
                b < 64 ==> (#[trigger] bit64(active, b) <==> (b + 1 <= m && prefix_ends_at(
                    pat,
                    text@,
                    b + 1,
                    i as int,
                ))),
            forall|a: int|
                0 <= a < res@.len() ==> is_match_at(pat, text@, #[trigger] (res@[a]).0 + 1 - m),
            forall|a: int| 0 <= a < res@.len() ==> (#[trigger] res@[a]).1 == accept,
            forall|a: int, b: int| 0 <= a < b < res@.len() ==> (res@[a]).0 < (res@[b]).0,
            forall|a: int| 0 <= a < res@.len() ==> (#[trigger] res@[a]).0 < i,
            forall|s: int|
                #[trigger] is_match_at(pat, text@, s) && s + m <= i ==> exists|a: int|
                    0 <= a < res@.len() && (#[trigger] res@[a]).0 == s + m - 1,
        decreases n - i,
    {
        let c = text[i];
        let mc = masks[c as usize];
        let ghost prev = active;
        active = ((active << 1u64) | ones) & mc;
        proof {
            assert forall|b: u64| b < 64 implies (#[trigger] bit64(active, b) <==> (b + 1 <= m
                && prefix_ends_at(pat, text@, b + 1, i + 1))) by {
                assert(bit64(masks@[c as int], b) <==> (b < m && pat[b as int] == c));
                if b == 0 {
                    lemma_step_bit_low(prev, mc);
                    assert(bit64(active, 0) <==> bit64(mc, 0));
                    if bit64(mc, 0) {
                        assert(prefix_ends_at(pat, text@, 1, i + 1)) by {
                            assert(text@[i as int] == pat[0]);
                        }
                    }
                    if prefix_ends_at(pat, text@, 1, i + 1) {
                        assert(text@[i as int] == pat[0]);
                    }
                } else {
                    lemma_step_bit(prev, mc, b);
                    if bit64(active, b) {
                        assert(bit64(prev, (b - 1) as u64));
                        assert(prefix_ends_at(pat, text@, b as int, i as int));
                        assert(prefix_ends_at(pat, text@, b + 1, i + 1)) by {
                            assert forall|k: int| 0 <= k < b + 1 implies text@[i + 1 - (b + 1)
                                + k] == pat[k] by {
                                if k < b {
                                    assert(text@[i - b + k] == pat[k]);
                                } else {
                                    assert(text@[i as int] == pat[b as int]);
                                }
                            }
                        }
                    }
                    if b + 1 <= m && prefix_ends_at(pat, text@, b + 1, i + 1) {
                        assert(prefix_ends_at(pat, text@, b as int, i as int)) by {
                            assert forall|k: int| 0 <= k < b implies text@[i - b + k] == pat[k] by {
                                assert(text@[i + 1 - (b + 1) + k] == pat[k]);
                            }
                        }
                        assert(text@[i + 1 - (b + 1) + b] == pat[b as int]);
                        assert(bit64(mc, b));
                    }
                }
            }
        }
        let found = active & accept;
        proof {
            lemma_accept_test(active, (m - 1) as u64);
            lemma_full_prefix_is_match(pat, text@, i + 1);
        }
        if found != 0 {
            let ghost old_res = res@;
            res.push((i, found));
            proof {
                assert forall|s: int|
                    #[trigger] is_match_at(pat, text@, s) && s + m <= i + 1 implies exists|a: int|
                    0 <= a < res@.len() && (#[trigger] res@[a]).0 == s + m - 1 by {
                    if s + m <= i {
                        let a = choose|a: int|
                            0 <= a < old_res.len() && (#[trigger] old_res[a]).0 == s + m - 1;
                        assert((res@[a]).0 == s + m - 1);
                    } else {
                        assert((res@[res@.len() - 1]).0 == s + m - 1);
                    }
                }
            }
        } else {
            proof {
                assert(!bit64(active, (m - 1) as u64));
                assert(!is_match_at(pat, text@, i + 1 - m));
            }
        }
        i += 1;
    }

    res
}

/// An implementation of the Shift-And algorithm.
///
/// Takes a `pattern`, and text `text`.
///
/// If the given text contains the given pattern, the algorithm returns the
/// indexes of the first letters of all found occurrences, in ascending
/// order.  If the pattern could not be found in the text, an empty vector
/// is returned.
///
/// # How It Works
///
/// The algorithm works by simulating a nondeterministic finite automaton
/// (NFA) in memory using cheap bit operations: bit `b` of the automaton
/// word is set exactly when the first `b + 1` pattern bytes equal the last
/// `b + 1` text bytes scanned so far.
pub fn shift_and(pattern: &[u8], text: &[u8]) -> (res: Vec<usize>)
    requires
        1 <= pattern@.len() <= 64,
    ensures
        is_occurrence_list(pattern@, text@, res@),
{
    let mut res: Vec<usize> = Vec::new();
    let m = pattern.len();
    let (mask, ones, accept) = shift_and_single_masks(pattern);
    let ends = shift_and_with_masks(text, &mask, ones, accept, Ghost(pattern@));

    let mut a: usize = 0;
    while a < ends.len()
        invariant
            m == pattern@.len(),
            1 <= m <= 64,
            a <= ends@.len(),
            res@.len() == a,
            forall|x: int|
                0 <= x < ends@.len() ==> is_match_at(
                    pattern@,
                    text@,
                    #[trigger] (ends@[x]).0 + 1 - m,
                ),
            forall|x: int, y: int| 0 <= x < y < ends@.len() ==> (ends@[x]).0 < (ends@[y]).0,
            forall|x: int| 0 <= x < a ==> #[trigger] res@[x] + m - 1 == (ends@[x]).0,
        decreases ends@.len() - a,
    {
        let e = ends[a].0;
        proof {
            assert(is_match_at(pattern@, text@, (ends@[a as int]).0 + 1 - m));
        }
        res.push(e - (m - 1));
        a += 1;
    }

    proof {
        assert forall|x: int| 0 <= x < res@.len() implies is_match_at(
            pattern@,
            text@,
            res@[x] as int,
        ) by {
            assert(res@[x] + m - 1 == (ends@[x]).0);
        }
        assert forall|i: int| is_match_at(pattern@, text@, i) implies res@.contains(
            i as usize,
        ) by {
            let x = choose|x: int|
                0 <= x < ends@.len() && (#[trigger] ends@[x]).0 == i + pattern@.len() - 1;
            assert(res@[x] + m - 1 == (ends@[x]).0);
            assert(res@[x] == i as usize);
        }
    }

    res
}

} // verus!
