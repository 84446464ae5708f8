//! The naive scanner: byte-for-byte comparison at every candidate start.

use vstd::prelude::*;

use crate::single_pattern::occurrences::is_match_at;
use crate::single_pattern::occurrences::is_occurrence_list;

verus! {

/// Compares the pattern against the text window starting at `i`.
pub(crate) fn matches_at(pattern: &[u8], text: &[u8], i: usize) -> (r: bool)
    requires
        i + pattern@.len() <= text@.len(),
    ensures
        r <==> is_match_at(pattern@, text@, i as int),
{
    let m = pattern.len();
    let n = text.len();
    let mut k: usize = 0;
    while k < m
        invariant
            m == pattern@.len(),
            n == text@.len(),
            i + m <= n,
            k <= m,
            forall|t: int| 0 <= t < k ==> text@[i + t] == pattern@[t],
        decreases m - k,
    {
        if text[i + k] != pattern[k] {
            return false;
        }
        k += 1;
    }
    true
}

/// A simple algorithm for matching a single pattern on a text returning the
/// first occurrence.
///
/// Takes a `pattern`, a text `text` and a value `i0` specifying at which
/// index of the text it should start to search for the next occurrence.
///
/// If the given text contains the given pattern, the algorithm returns the
/// index `i` of the first letter of the first occurrence with `i >= i0`.
/// If the pattern could not be found in the text, `None` is returned.
///
/// # Runtime
///
/// The worst case runtime is `O(n * m)`, with `n` being the length of the
/// text and `m` being the length of the pattern.
pub fn naive(pattern: &[u8], text: &[u8], i0: usize) -> (r: Option<usize>)
    requires
        pattern@.len() >= 1,
    ensures
        match r {
            Some(i) => {
                &&& i0 <= i
                &&& is_match_at(pattern@, text@, i as int)
                &&& forall|j: int| i0 <= j < i ==> !is_match_at(pattern@, text@, j)
            },
            None => forall|j: int| i0 <= j ==> !is_match_at(pattern@, text@, j),
        },
{
    let m = pattern.len();
    let n = text.len();

    if m > n {
        return None;
    }

    let mut i = i0;
    while i <= n - m
        invariant
            m == pattern@.len(),
            n == text@.len(),
            1 <= m <= n,
            i0 <= i,
            forall|j: int| i0 <= j < i ==> !is_match_at(pattern@, text@, j),
        decreases n - i,
    {
        if matches_at(pattern, text, i) {
            return Some(i);
        }
        i += 1;
    }

    None
}

/// A simple algorithm for matching a single pattern on a text returning all
/// occurrences.
///
/// Takes a `pattern`, and text `text`.
///
/// If the given text contains the given pattern, the algorithm returns the
/// indexes of the first letters of all found occurrences, in ascending
/// order.  If the pattern could not be found in the text, an empty vector
/// is returned.
///
/// # How It Works
///
/// The algorithm calls the [`naive`](naive) algorithm starting with the
/// `i0` parameter being `0`.  After the `naive` algorithm returns, it calls
/// that same algorithm again with an `i0` parameter of the position in text
/// right after the found occurrence, so overlapping occurrences are found.
pub fn naive_all(pattern: &[u8], text: &[u8]) -> (res: Vec<usize>)
    requires
        pattern@.len() >= 1,
    ensures
        is_occurrence_list(pattern@, text@, res@),
{
    let mut res: Vec<usize> = Vec::new();
    let mut i0: usize = 0;
    let n = text.len();

    loop
        invariant
            pattern@.len() >= 1,
            n == text@.len(),
            i0 <= n + 1,
            forall|a: int| 0 <= a < res@.len() ==> is_match_at(pattern@, text@, res@[a] as int),
            forall|a: int| 0 <= a < res@.len() ==> res@[a] < i0,
            forall|a: int, b: int| 0 <= a < b < res@.len() ==> res@[a] < res@[b],
            forall|j: int| 0 <= j < i0 && is_match_at(pattern@, text@, j)
                ==> res@.contains(j as usize),
        ensures
            is_occurrence_list(pattern@, text@, res@),
        decreases text@.len() + 1 - i0,
    {
        let ghost old_res = res@;
        let ghost old_i0 = i0 as int;
        match naive(pattern, text, i0) {
            Some(occ) => {
                res.push(occ);
                i0 = occ + 1;
                proof {
                    assert forall|j: int| 0 <= j < i0 && is_match_at(pattern@, text@, j)
                        implies res@.contains(j as usize) by {
                        if j < old_i0 {
                            let a = choose|a: int|
                                0 <= a < old_res.len() && old_res[a] == j as usize;
                            assert(res@[a] == j as usize);
                        } else if j == occ {
                            assert(res@[res@.len() - 1] == j as usize);
                        }
                    }
                }
            },
            None => {
                proof {
                    assert forall|j: int| is_match_at(pattern@, text@, j)
                        implies res@.contains(j as usize) by {
                        assert(!(old_i0 <= j));
                    }
                }
                break;
            },
        }
    }

    res
}

} // verus!
