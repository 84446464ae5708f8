//! The Backward Nondeterministic DAWG Matching algorithm (BNDM): the
//! Shift-And mask table, built for the reversed pattern, drives a
//! right-to-left scan of a sliding window, and the longest pattern prefix
//! found at the window's end bounds how far the window may advance.

use vstd::prelude::*;

use crate::single_pattern::bits::bit64;
use crate::single_pattern::bits::lemma_accept_test;
use crate::single_pattern::bits::lemma_bit_and;
use crate::single_pattern::bits::lemma_bit_zero;
use crate::single_pattern::bits::lemma_bits_clear_zero;
use crate::single_pattern::bits::lemma_low_ones;
use crate::single_pattern::bits::lemma_shl_bit;
use crate::single_pattern::bits::lemma_shl_bit_low;
use crate::single_pattern::occurrences::is_match_at;
use crate::single_pattern::occurrences::is_occurrence_list;
use crate::single_pattern::shift_and::lemma_full_prefix_is_match;
use crate::single_pattern::shift_and::masks_ok;
use crate::single_pattern::shift_and::prefix_ends_at;
use crate::single_pattern::shift_and::shift_and_single_masks;

verus! {

/// The `t` text bytes scanned so far in the window ending (exclusively) at
/// `end` equal the pattern slice of length `t` that starts at position
/// `m - 1 - bb` (the slice whose automaton bit is `bb`).
spec fn scan_matches(pattern: Seq<u8>, text: Seq<u8>, end: int, t: int, bb: int) -> bool {
    forall|x: int|
        end - t <= x < end ==> #[trigger] text[x] == pattern[pattern.len() - 1 - bb + t - end
            + x]
}

/// What bit `b` of the automaton word means right after the mask of the
/// `j`-th scanned byte has been folded in.
spec fn step_bit_cond(pattern: Seq<u8>, text: Seq<u8>, end: int, j: int, m: int, b: int) -> bool {
    &&& j - 1 <= b <= m - 1
    &&& scan_matches(pattern, text, end, j, b)
}

/// What bit `b` of the automaton word means at the head of the scan loop,
/// when `j - 1` bytes have been folded in and the word has been shifted.
spec fn head_bit_cond(pattern: Seq<u8>, text: Seq<u8>, end: int, j: int, m: int, b: int) -> bool {
    &&& j - 1 <= b
    &&& b <= (if j == 1 { m - 1 } else { m })
    &&& scan_matches(pattern, text, end, j - 1, b - 1)
}

/// An implementation of the Backward Nondeterministic DAWG Matching
/// algorithm (BNDM) using already prepared shift masks.
fn bndm_with_masks(
    text: &[u8],
    masks: &Vec<u64>,
    accept: u64,
    m: usize,
    pattern: Ghost<Seq<u8>>,
) -> (res: Vec<usize>)
    requires
        1 <= m <= 64,
        m == pattern@.len(),
        masks_ok(masks@, pattern@.reverse()),
        accept == 1u64 << ((m - 1) as u64),
    ensures
        is_occurrence_list(pattern@, text@, res@),
{
    let ghost pat = pattern@;
    let n = text.len();
    let mut res: Vec<usize> = Vec::new();

    if m > n {
        proof {
            assert forall|p: int| is_match_at(pat, text@, p) implies res@.contains(
                p as usize,
            ) by {
                assert(p >= 0 && p + m <= n);
            }
        }
        return res;
    }

    let mut window: usize = m;

    loop
        invariant_except_break
            forall|a: int| 0 <= a < res@.len() ==> #[trigger] res@[a] + m < window,
        invariant
            1 <= m <= 64,
            m == pat.len(),
            n == text@.len(),
            masks_ok(masks@, pat.reverse()),
            accept == 1u64 << ((m - 1) as u64),
            m <= window <= n,
            forall|a: int| 0 <= a < res@.len() ==> is_match_at(pat, text@, res@[a] as int),
            forall|a: int, b: int| 0 <= a < b < res@.len() ==> res@[a] < res@[b],
            forall|a: int| 0 <= a < res@.len() ==> #[trigger] res@[a] + m <= window,
            forall|p: int|
                #[trigger] is_match_at(pat, text@, p) && p + m < window ==> res@.contains(
                    p as usize,
                ),
        ensures
            is_occurrence_list(pat, text@, res@),
        decreases n - window,
    {
        let mut active: u64 = u64::MAX >> ((64 - m) as u64);
        let mut j: usize = 1;
        let mut lastsuffix: usize = 0;
        let mut found: bool = false;

        proof {
            assert forall|b: u64| b < 64 implies (#[trigger] bit64(active, b) <==> head_bit_cond(
                pat,
                text@,
                window as int,
                1,
                m as int,
                b as int,
            )) by {
                lemma_low_ones(m as u64, b);
            }
            lemma_low_ones(m as u64, 0);
            if active == 0 {
                lemma_bit_zero(0);
            }
        }

        while active != 0
            invariant_except_break
                !found,
                forall|b: u64|
                    b < 64 ==> (#[trigger] bit64(active, b) <==> head_bit_cond(
                        pat,
                        text@,
                        window as int,
                        j as int,
                        m as int,
                        b as int,
                    )),
                j <= m + 1,
                (j == m + 1 && m < 64) ==> !bit64(active, m as u64),
                active == 0 ==> (forall|q: int|
                    1 <= q < m && prefix_ends_at(pat, text@, q, window as int) ==> lastsuffix
                        >= q),
                active == 0 ==> !is_match_at(pat, text@, window - m),
            invariant
                1 <= m <= 64,
                m == pat.len(),
                n == text@.len(),
                masks_ok(masks@, pat.reverse()),
                accept == 1u64 << ((m - 1) as u64),
                m <= window <= n,
                1 <= j,
                lastsuffix < j,
                lastsuffix < m,
                forall|q: int|
                    1 <= q < j && prefix_ends_at(pat, text@, q, window as int) ==> lastsuffix
                        >= q,
            ensures
                lastsuffix < m,
                forall|q: int|
                    1 <= q < m && prefix_ends_at(pat, text@, q, window as int) ==> lastsuffix
                        >= q,
                found <==> is_match_at(pat, text@, window - m),
            decreases m + 1 - j,
        {
            proof {
                if j == m + 1 {
                    assert forall|b: u64| b < 64 implies !bit64(active, b) by {
                        if bit64(active, b) {
                            assert(head_bit_cond(
                                pat,
                                text@,
                                window as int,
                                j as int,
                                m as int,
                                b as int,
                            ));
                            assert(b == m);
                        }
                    }
                    lemma_bits_clear_zero(active);
                    assert(false);
                }
            }

            let c = text[window - j];
            let mc = masks[c as usize];
            let ghost prev = active;
            active = active & mc;

            proof {
                let rev = pat.reverse();
                assert(rev.len() == m);
                assert forall|b: u64| b < 64 implies (#[trigger] bit64(active, b)
                    <==> step_bit_cond(pat, text@, window as int, j as int, m as int, b as int))
                    by {
                    lemma_bit_and(prev, mc, b);
                    assert(bit64(masks@[c as int], b) <==> (b < m && rev[b as int] == c));
                    if b < m {
                        assert(rev[b as int] == pat[m - 1 - b]);
                    }
                    if bit64(active, b) {
                        assert(head_bit_cond(
                            pat,
                            text@,
                            window as int,
                            j as int,
                            m as int,
                            b as int,
                        ));
                        assert(pat[m - 1 - b] == c);
                        assert(scan_matches(pat, text@, window as int, j as int, b as int)) by {
                            assert forall|x: int| window - j <= x < window implies #[trigger]
                                text@[x] == pat[pat.len() - 1 - b + j - window + x] by {
                                if x == window - j {
                                    assert(text@[x] == c);
                                }
                            }
                        }
                    }
                    if step_bit_cond(pat, text@, window as int, j as int, m as int, b as int) {
                        assert(text@[window - j] == pat[pat.len() - 1 - b + j - window + (window
                            - j)]);
                        assert(pat[m - 1 - b] == c);
                        assert(bit64(mc, b));
                        assert(scan_matches(pat, text@, window as int, j - 1, b - 1)) by {
                            assert forall|x: int| window - (j - 1) <= x < window implies #[trigger]
                                text@[x] == pat[pat.len() - 1 - (b - 1) + (j - 1) - window
                                + x] by {
                                assert(text@[x] == pat[pat.len() - 1 - b + j - window + x]);
                            }
                        }
                        assert(head_bit_cond(
                            pat,
                            text@,
                            window as int,
                            j as int,
                            m as int,
                            b as int,
                        ));
                        assert(bit64(prev, b));
                    }
                }
            }

            let ghost after_and = active;
            if active & accept != 0 {
                proof {
                    lemma_accept_test(active, (m - 1) as u64);
                    assert(step_bit_cond(pat, text@, window as int, j as int, m as int, m - 1));
                    assert(prefix_ends_at(pat, text@, j as int, window as int)) by {
                        assert forall|k: int| 0 <= k < j implies text@[window - j + k]
                            == pat[k] by {
                            assert(text@[window - j + k] == pat[pat.len() - 1 - (m - 1) + j
                                - window + (window - j + k)]);
                        }
                    }
                }
                if j == m {
                    proof {
                        lemma_full_prefix_is_match(pat, text@, window as int);
                    }
                    found = true;
                    break;
                }
                lastsuffix = j;
            } else {
                proof {
                    lemma_accept_test(active, (m - 1) as u64);
                    assert(!prefix_ends_at(pat, text@, j as int, window as int)) by {
                        if prefix_ends_at(pat, text@, j as int, window as int) {
                            assert(scan_matches(pat, text@, window as int, j as int, m - 1)) by {
                                assert forall|x: int| window - j <= x < window implies #[trigger]
                                    text@[x] == pat[pat.len() - 1 - (m - 1) + j - window + x] by {
                                    assert(text@[window - j + (x - (window - j))] == pat[x - (
                                    window - j)]);
                                }
                            }
                            assert(step_bit_cond(
                                pat,
                                text@,
                                window as int,
                                j as int,
                                m as int,
                                m - 1,
                            ));
                            assert(bit64(after_and, (m - 1) as u64));
                        }
                    }
                }
            }

            j += 1;
            active = active << 1u64;

            proof {
                assert forall|b: u64| b < 64 implies (#[trigger] bit64(active, b)
                    <==> head_bit_cond(pat, text@, window as int, j as int, m as int, b as int))
                    by {
                    if b == 0 {
                        lemma_shl_bit_low(after_and);
                    } else {
                        lemma_shl_bit(after_and, b);
                        assert(bit64(active, b) <==> bit64(after_and, (b - 1) as u64));
                    }
                }
                if j == m + 1 && m < 64 {
                    lemma_accept_test(after_and, (m - 1) as u64);
                    lemma_shl_bit(after_and, m as u64);
                    assert(!bit64(active, m as u64));
                }
                if active == 0 {
                    assert forall|b: u64| b < 64 implies !bit64(active, b) by {
                        lemma_bit_zero(b);
                    }
                    assert forall|q: int|
                        1 <= q < m && prefix_ends_at(pat, text@, q, window as int)
                        implies lastsuffix >= q by {
                        if q >= j {
                            let bq = m - q + j - 1;
                            assert(scan_matches(pat, text@, window as int, j - 1, bq - 1)) by {
                                assert forall|x: int| window - (j - 1) <= x < window
                                    implies #[trigger] text@[x] == pat[pat.len() - 1 - (bq - 1)
                                    + (j - 1) - window + x] by {
                                    assert(text@[window - q + (x - (window - q))] == pat[x - (
                                    window - q)]);
                                }
                            }
                            assert(head_bit_cond(
                                pat,
                                text@,
                                window as int,
                                j as int,
                                m as int,
                                bq,
                            ));
                            assert(bit64(active, bq as u64));
                            assert(false);
                        }
                    }
                    if is_match_at(pat, text@, window - m) {
                        lemma_full_prefix_is_match(pat, text@, window as int);
                        assert(prefix_ends_at(pat, text@, m as int, window as int));
                        if j <= m {
                            let bm = j - 1;
                            assert(scan_matches(pat, text@, window as int, j - 1, bm - 1)) by {
                                assert forall|x: int| window - (j - 1) <= x < window
                                    implies #[trigger] text@[x] == pat[pat.len() - 1 - (bm - 1)
                                    + (j - 1) - window + x] by {
                                    assert(text@[window - m + (x - (window - m))] == pat[x - (
                                    window - m)]);
                                }
                            }
                            assert(head_bit_cond(
                                pat,
                                text@,
                                window as int,
                                j as int,
                                m as int,
                                bm,
                            ));
                            assert(bit64(active, bm as u64));
                            assert(false);
                        } else {
                            lemma_accept_test(after_and, (m - 1) as u64);
                            assert(scan_matches(pat, text@, window as int, m as int, m - 1)) by {
                                assert forall|x: int| window - m <= x < window implies #[trigger]
                                    text@[x] == pat[pat.len() - 1 - (m - 1) + m - window + x] by {
                                    assert(text@[window - m + (x - (window - m))] == pat[x - (
                                    window - m)]);
                                }
                            }
                            assert(step_bit_cond(
                                pat,
                                text@,
                                window as int,
                                m as int,
                                m as int,
                                m - 1,
                            ));
                            assert(bit64(after_and, (m - 1) as u64));
                            assert(false);
                        }
                    }
                }
            }
        }

        if found {
            let ghost old_res = res@;
            res.push(window - m);
            proof {
                assert forall|p: int|
                    #[trigger] is_match_at(pat, text@, p) && p + m < window
                    implies res@.contains(p as usize) by {
                    let a = choose|a: int| 0 <= a < old_res.len() && old_res[a] == p as usize;
                    assert(res@[a] == p as usize);
                }
            }
        }

        let s = m - lastsuffix;
        proof {
            assert forall|p: int| window < p + m < window + s implies !is_match_at(
                pat,
                text@,
                p,
            ) by {
                if is_match_at(pat, text@, p) {
                    let q = window - p;
                    assert(1 <= q < m);
                    assert(prefix_ends_at(pat, text@, q, window as int)) by {
                        assert forall|k: int| 0 <= k < q implies text@[window - q + k]
                            == pat[k] by {
                            assert(text@[p + k] == pat[k]);
                        }
                    }
                    assert(lastsuffix >= q);
                    assert(false);
                }
            }
        }

        if s > n - window {
            proof {
                assert forall|p: int| is_match_at(pat, text@, p) implies res@.contains(
                    p as usize,
                ) by {
                    if p + m == window {
                        assert(found);
                        assert(res@[res@.len() - 1] == (window - m) as usize);
                    } else if window < p + m && p + m < window + s {
                        assert(!is_match_at(pat, text@, p));
                    } else if p + m >= window + s {
                        assert(p + m <= n);
                    }
                }
            }
            break;
        }

        proof {
            assert forall|p: int|
                #[trigger] is_match_at(pat, text@, p) && p + m < window + s implies res@.contains(
                p as usize,
            ) by {
                if p + m == window {
                    assert(found);
                    assert(res@[res@.len() - 1] == (window - m) as usize);
                } else if window < p + m {
                    assert(!is_match_at(pat, text@, p));
                }
            }
        }
        window += s;
    }

    res
}

/// An implementation of the Backward Nondeterministic DAWG Matching
/// algorithm (BNDM).
///
/// Takes a `pattern`, and text `text`.
///
/// If the given text contains the given pattern, the algorithm returns all
/// indexes of the first letters of the found occurrences, in ascending
/// order.  If the pattern could not be found in the text, an empty vector
/// is returned.
///
/// # How It Works
///
/// It uses the same function to generate shift masks as the Shift-And
/// algorithm, but reverses the pattern before passing it to the mentioned
/// function.  Also, it scans the pattern in the current search window from
/// right to left and as soon as the pattern does not match the current
/// window determines how far the next jump (or shift of the search window)
/// needs to be.
pub fn bndm(pattern: &[u8], text: &[u8]) -> (res: Vec<usize>)
    requires
        1 <= pattern@.len() <= 64,
    ensures
        is_occurrence_list(pattern@, text@, res@),
{
    let m = pattern.len();
    let mut pattern_rev: Vec<u8> = Vec::new();
    let mut k: usize = 0;
    while k < m
        invariant
            m == pattern@.len(),
            1 <= m <= 64,
            k <= m,
            pattern_rev@.len() == k,
            forall|t: int| 0 <= t < k ==> pattern_rev@[t] == pattern@[m - 1 - t],
        decreases m - k,
    {
        pattern_rev.push(pattern[m - 1 - k]);
        k += 1;
    }
    proof {
        assert(pattern_rev@ =~= pattern@.reverse());
    }

    let (masks, _ones, accept) = shift_and_single_masks(pattern_rev.as_slice());

    bndm_with_masks(text, &masks, accept, m, Ghost(pattern@))
}

} // verus!
