//! Horspool's algorithm: a bad-character shift table lets the search window
//! jump over alignments that cannot contain an occurrence.

use vstd::prelude::*;

use crate::single_pattern::naive::matches_at;
use crate::single_pattern::occurrences::is_match_at;
use crate::single_pattern::occurrences::is_occurrence_list;

verus! {

/// Builds the bad-character table: entry `c` holds `m - 1 - t` for the
/// last position `t` before the final pattern position that carries byte
/// `c`, and `m` for every byte that occurs nowhere before the final
/// position.  The last two clauses together pin each entry to exactly that
/// value: the entry equals `m - 1 - t` for some such occurrence `t`, and is
/// at most `m - 1 - t` for every one of them, so the latest occurrence
/// wins.
fn horspool_shift(pattern: &[u8]) -> (shift: Vec<usize>)
    requires
        pattern@.len() >= 1,
    ensures
        shift@.len() == 256,
        forall|c: int| 0 <= c < 256 ==> 1 <= #[trigger] shift@[c] <= pattern@.len(),
        forall|t: int| 0 <= t < pattern@.len() - 1
            ==> #[trigger] shift@[pattern@[t] as int] <= pattern@.len() - 1 - t,
        forall|c: int| 0 <= c < 256 ==> (#[trigger] shift@[c] == pattern@.len()
            || exists|t: int| 0 <= t < pattern@.len() - 1 && pattern@[t] == c as u8
                && shift@[c] == pattern@.len() - 1 - t),
{
    let m = pattern.len();
    let mut shift: Vec<usize> = Vec::new();

    let mut v: usize = 0;
    while v < 256
        invariant
            m == pattern@.len(),
            shift@.len() == v,
            v <= 256,
            forall|c: int| 0 <= c < v ==> #[trigger] shift@[c] == m,
        decreases 256 - v,
    {
        shift.push(m);
        v += 1;
    }

    let mut j: usize = 0;
    while j < m - 1
        invariant
            m == pattern@.len(),
            1 <= m,
            j <= m - 1,
            shift@.len() == 256,
            forall|c: int| 0 <= c < 256 ==> 1 <= #[trigger] shift@[c] <= m,
            forall|t: int| 0 <= t < j ==> #[trigger] shift@[pattern@[t] as int] <= m - 1 - t,
            forall|c: int| 0 <= c < 256 ==> (#[trigger] shift@[c] == m
                || exists|t: int| 0 <= t < j && pattern@[t] == c as u8
                    && shift@[c] == m - 1 - t),
        decreases m - 1 - j,
    {
        let c = pattern[j] as usize;
        let ghost old_shift = shift@;
        shift[c] = m - 1 - j;
        proof {
            assert forall|cc: int| 0 <= cc < 256 implies (#[trigger] shift@[cc] == m
                || exists|t: int| 0 <= t < j + 1 && pattern@[t] == cc as u8
                    && shift@[cc] == m - 1 - t) by {
                if cc == c {
                    assert(0 <= j < j + 1 && pattern@[j as int] == cc as u8 && shift@[cc] == m - 1
                        - j);
                } else {
                    assert(shift@[cc] == old_shift[cc]);
                    if old_shift[cc] != m {
                        let t0 = choose|t: int|
                            0 <= t < j && pattern@[t] == cc as u8 && old_shift[cc] == m - 1 - t;
                        assert(0 <= t0 < j + 1 && pattern@[t0] == cc as u8 && shift@[cc] == m - 1
                            - t0);
                    }
                }
            }
        }
        j += 1;
    }

    shift
}

/// An implementation of the Horspool algorithm.
///
/// Takes a `pattern`, a text `text` and a value `i0` specifying at which
/// index of the text it should start to search for the next occurrence.
///
/// If the given text contains the given pattern, the algorithm returns the
/// index `i` of the first letter of the first occurrence with `i >= i0`.
/// If the pattern could not be found in the text, `None` is returned.
///
/// This algorithm terminates after finding one occurrence of the given
/// pattern in the given text.  If you want to find all occurrences,
/// consider using [`horspool_all`](horspool_all) instead.
pub fn horspool(pattern: &[u8], text: &[u8], i0: usize) -> (r: Option<usize>)
    requires
        pattern@.len() >= 1,
    ensures
        match r {
            Some(i) => {
                &&& i0 <= i
                &&& is_match_at(pattern@, text@, i as int)
                &&& forall|j: int| i0 <= j < i ==> !is_match_at(pattern@, text@, j)
            },
            None => forall|j: int| i0 <= j ==> !is_match_at(pattern@, text@, j),
        },
{
    let m = pattern.len();
    let n = text.len();

    if m > n || i0 > n - m {
        return None;
    }

    let shift = horspool_shift(pattern);
    let mut last: usize = i0 + m - 1;
    let p_last = pattern[m - 1];

    loop
        invariant
            m == pattern@.len(),
            n == text@.len(),
            1 <= m <= n,
            i0 + m - 1 <= last <= n,
            shift@.len() == 256,
            forall|c: int| 0 <= c < 256 ==> 1 <= #[trigger] shift@[c] <= m,
            forall|t: int| 0 <= t < m - 1
                ==> #[trigger] shift@[pattern@[t] as int] <= m - 1 - t,
            p_last == pattern@[m - 1],
            forall|j: int| i0 <= j && j + m - 1 < last ==> !is_match_at(pattern@, text@, j),
        ensures
            forall|j: int| i0 <= j ==> !is_match_at(pattern@, text@, j),
        decreases n - last,
    {
        let ghost last_at_top = last;
        while last < n && text[last] != p_last
            invariant
                last_at_top <= last,
                m == pattern@.len(),
                n == text@.len(),
                1 <= m <= n,
                i0 + m - 1 <= last <= n,
                shift@.len() == 256,
                forall|c: int| 0 <= c < 256 ==> 1 <= #[trigger] shift@[c] <= m,
                forall|t: int| 0 <= t < m - 1
                    ==> #[trigger] shift@[pattern@[t] as int] <= m - 1 - t,
                p_last == pattern@[m - 1],
                forall|j: int| i0 <= j && j + m - 1 < last
                    ==> !is_match_at(pattern@, text@, j),
            decreases n - last,
        {
            let s = shift[text[last] as usize];
            proof {
                assert forall|j: int| i0 <= j && j + m - 1 < last + s
                    implies !is_match_at(pattern@, text@, j) by {
                    if last <= j + m - 1 && is_match_at(pattern@, text@, j) {
                        let d = j + m - 1 - last;
                        if d == 0 {
                            assert(text@[j + (m - 1)] == pattern@[m - 1]);
                        } else {
                            let t = m - 1 - d;
                            assert(text@[j + t] == pattern@[t]);
                            assert(shift@[pattern@[t] as int] <= m - 1 - t);
                        }
                    }
                }
            }
            if s >= n - last {
                last = n;
            } else {
                last += s;
            }
        }

        if last >= n {
            break;
        }

        let start = last - (m - 1);
        if matches_at(pattern, text, start) {
            return Some(start);
        }

        let s = shift[p_last as usize];
        proof {
            assert forall|j: int| i0 <= j && j + m - 1 < last + s
                implies !is_match_at(pattern@, text@, j) by {
                if last <= j + m - 1 && is_match_at(pattern@, text@, j) {
                    let d = j + m - 1 - last;
                    if d == 0 {
                        assert(j == start);
                    } else {
                        let t = m - 1 - d;
                        assert(text@[j + t] == pattern@[t]);
                        assert(shift@[pattern@[t] as int] <= m - 1 - t);
                    }
                }
            }
        }
        if s >= n - last {
            last = n;
        } else {
            last += s;
        }
    }

    None
}

/// An implementation of the Horspool algorithm returning all occurrences.
///
/// Takes a `pattern`, and text `text`.
///
/// If the given text contains the given pattern, the algorithm returns the
/// indexes of the first letters of all found occurrences, in ascending
/// order.  If the pattern could not be found in the text, an empty vector
/// is returned.  The search resumes right after the first letter of each
/// found occurrence, so overlapping occurrences are all reported.
pub fn horspool_all(pattern: &[u8], text: &[u8]) -> (res: Vec<usize>)
    requires
        pattern@.len() >= 1,
    ensures
        is_occurrence_list(pattern@, text@, res@),
{
    let mut res: Vec<usize> = Vec::new();
    let mut i0: usize = 0;
    let n = text.len();

    loop
        invariant
            pattern@.len() >= 1,
            n == text@.len(),
            i0 <= n + 1,
            forall|a: int| 0 <= a < res@.len() ==> is_match_at(pattern@, text@, res@[a] as int),
            forall|a: int| 0 <= a < res@.len() ==> res@[a] < i0,
            forall|a: int, b: int| 0 <= a < b < res@.len() ==> res@[a] < res@[b],
            forall|j: int| 0 <= j < i0 && is_match_at(pattern@, text@, j)
                ==> res@.contains(j as usize),
        ensures
            is_occurrence_list(pattern@, text@, res@),
        decreases text@.len() + 1 - i0,
    {
        let ghost old_res = res@;
        let ghost old_i0 = i0 as int;
        match horspool(pattern, text, i0) {
            Some(occ) => {
                res.push(occ);
                i0 = occ + 1;
                proof {
                    assert forall|j: int| 0 <= j < i0 && is_match_at(pattern@, text@, j)
                        implies res@.contains(j as usize) by {
                        if j < old_i0 {
                            let a = choose|a: int|
                                0 <= a < old_res.len() && old_res[a] == j as usize;
                            assert(res@[a] == j as usize);
                        } else if j == occ {
                            assert(res@[res@.len() - 1] == j as usize);
                        }
                    }
                }
            },
            None => {
                proof {
                    assert forall|j: int| is_match_at(pattern@, text@, j)
                        implies res@.contains(j as usize) by {
                        assert(!(old_i0 <= j));
                    }
                }
                break;
            },
        }
    }

    res
}

} // verus!
