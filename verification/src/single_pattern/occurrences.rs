//! The common specification shared by all matchers: what an occurrence is,
//! and what a complete, sound, ascending list of occurrences looks like.

use vstd::prelude::*;

verus! {

/// `pattern` occurs in `text` starting at index `i`.
pub open spec fn is_match_at(pattern: Seq<u8>, text: Seq<u8>, i: int) -> bool {
    &&& 0 <= i
    &&& i + pattern.len() <= text.len()
    &&& forall|k: int| 0 <= k < pattern.len() ==> text[i + k] == pattern[k]
}

/// The elements of `s` are in strictly ascending order (hence distinct).
pub open spec fn strictly_ascending(s: Seq<usize>) -> bool {
    forall|a: int, b: int| 0 <= a < b < s.len() ==> s[a] < s[b]
}

/// `res` is exactly the list of start indices at which `pattern` occurs in
/// `text`, in strictly ascending order: every listed index is an occurrence,
/// every occurrence is listed, and no index is listed twice.
pub open spec fn is_occurrence_list(pattern: Seq<u8>, text: Seq<u8>, res: Seq<usize>) -> bool {
    &&& forall|a: int| 0 <= a < res.len() ==> is_match_at(pattern, text, res[a] as int)
    &&& forall|i: int| is_match_at(pattern, text, i) ==> res.contains(i as usize)
    &&& strictly_ascending(res)
}

/// Two strictly ascending sequences with the same members are equal.
proof fn lemma_ascending_same_members(r1: Seq<usize>, r2: Seq<usize>)
    requires
        strictly_ascending(r1),
        strictly_ascending(r2),
        forall|x: usize| r1.contains(x) <==> r2.contains(x),
    ensures
        r1 == r2,
    decreases r1.len(),
{
    if r1.len() == 0 {
        if r2.len() > 0 {
            assert(r2.contains(r2[0]));
            assert(r1.contains(r2[0]));
        }
        assert(r1 =~= r2);
    } else {
        assert(r1.contains(r1[0]));
        assert(r2.contains(r1[0]));
        let b = choose|b: int| 0 <= b < r2.len() && r2[b] == r1[0];
        assert(r2[0] <= r1[0]) by {
            if b > 0 {
                assert(r2[0] < r2[b]);
            }
        }
        assert(r2.contains(r2[0]));
        assert(r1.contains(r2[0]));
        let a = choose|a: int| 0 <= a < r1.len() && r1[a] == r2[0];
        assert(r1[0] <= r2[0]) by {
            if a > 0 {
                assert(r1[0] < r1[a]);
            }
        }
        let t1 = r1.skip(1);
        let t2 = r2.skip(1);
        assert(strictly_ascending(t1)) by {
            assert forall|c: int, d: int| 0 <= c < d < t1.len() implies t1[c] < t1[d] by {
                assert(r1[c + 1] < r1[d + 1]);
            }
        }
        assert(strictly_ascending(t2)) by {
            assert forall|c: int, d: int| 0 <= c < d < t2.len() implies t2[c] < t2[d] by {
                assert(r2[c + 1] < r2[d + 1]);
            }
        }
        assert forall|x: usize| t1.contains(x) implies t2.contains(x) by {
            lemma_tail_contains(r1, x);
            lemma_tail_contains(r2, x);
        }
        assert forall|x: usize| t2.contains(x) implies t1.contains(x) by {
            lemma_tail_contains(r1, x);
            lemma_tail_contains(r2, x);
        }
        lemma_ascending_same_members(t1, t2);
        assert(r1 =~= r2) by {
            assert forall|c: int| 0 <= c < r1.len() implies r1[c] == r2[c] by {
                if c > 0 {
                    assert(t1[c - 1] == t2[c - 1]);
                }
            }
        }
    }
}

/// In a strictly ascending sequence, the tail contains exactly the members
/// other than the first element.
proof fn lemma_tail_contains(r: Seq<usize>, x: usize)
    requires
        strictly_ascending(r),
        r.len() > 0,
    ensures
        r.skip(1).contains(x) <==> (r.contains(x) && x != r[0]),
{
    let t = r.skip(1);
    if t.contains(x) {
        let c = choose|c: int| 0 <= c < t.len() && t[c] == x;
        assert(r[c + 1] == x);
        assert(r[0] < r[c + 1]);
        assert(r.contains(x));
    }
    if r.contains(x) && x != r[0] {
        let c = choose|c: int| 0 <= c < r.len() && r[c] == x;
        assert(c != 0);
        assert(t[c - 1] == x);
        assert(t.contains(x));
    }
}

/// The occurrence list of a given pattern and text is unique: any two
/// strictly ascending, sound and complete lists of its occurrences are the
/// same sequence.  Hence all four matchers agree on every input, and
/// repeated invocation with identical inputs yields identical results.
pub proof fn lemma_occurrence_list_unique(
    pattern: Seq<u8>,
    text: Seq<u8>,
    r1: Seq<usize>,
    r2: Seq<usize>,
)
    requires
        is_occurrence_list(pattern, text, r1),
        is_occurrence_list(pattern, text, r2),
    ensures
        r1 == r2,
{
    assert forall|x: usize| r1.contains(x) implies r2.contains(x) by {
        let a = choose|a: int| 0 <= a < r1.len() && r1[a] == x;
        assert(is_match_at(pattern, text, r1[a] as int));
    }
    assert forall|x: usize| r2.contains(x) implies r1.contains(x) by {
        let a = choose|a: int| 0 <= a < r2.len() && r2[a] == x;
        assert(is_match_at(pattern, text, r2[a] as int));
    }
    lemma_ascending_same_members(r1, r2);
}

/// A pattern longer than the text never occurs in it, so every occurrence
/// list for such a pair is empty.
pub proof fn lemma_pattern_longer_than_text(
    pattern: Seq<u8>,
    text: Seq<u8>,
    res: Seq<usize>,
)
    requires
        pattern.len() > text.len(),
        is_occurrence_list(pattern, text, res),
    ensures
        res == Seq::<usize>::empty(),
{
    if res.len() > 0 {
        assert(is_match_at(pattern, text, res[0] as int));
    }
    assert(res =~= Seq::<usize>::empty());
}

/// When the pattern is exactly as long as the text, index 0 is the only
/// possible occurrence, so an occurrence list holds at most that one entry.
pub proof fn lemma_pattern_length_equal_text(
    pattern: Seq<u8>,
    text: Seq<u8>,
    res: Seq<usize>,
)
    requires
        pattern.len() == text.len(),
        is_occurrence_list(pattern, text, res),
    ensures
        res.len() <= 1,
        res.len() == 1 ==> res[0] == 0,
{
    assert forall|a: int| 0 <= a < res.len() implies res[a] == 0 by {
        assert(is_match_at(pattern, text, res[a] as int));
    }
    if res.len() > 1 {
        assert(res[0] < res[1]);
    }
}

} // verus!
