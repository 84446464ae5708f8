use patmatch::single_pattern::bndm::bndm;
use patmatch::single_pattern::horspool::horspool;
use patmatch::single_pattern::horspool::horspool_all;
use patmatch::single_pattern::naive::naive;
use patmatch::single_pattern::naive::naive_all;
use patmatch::single_pattern::shift_and::shift_and;

fn all_four(pattern: &[u8], text: &[u8]) -> Vec<Vec<usize>> {
    vec![
        shift_and(pattern, text),
        bndm(pattern, text),
        naive_all(pattern, text),
        horspool_all(pattern, text),
    ]
}

#[test]
fn all_algorithms_agree() {
    let cases: Vec<(&str, &str)> = vec![
        ("tta", "gccttaacattattacgccta"),
        ("a", "gccttaacattattacgccta"),
        ("gccta", "gccttaacattattacgccta"),
        ("ab", "abababab"),
        ("aba", "abababab"),
        ("zz", "abababab"),
    ];
    for (pattern, text) in cases {
        let results = all_four(pattern.as_bytes(), text.as_bytes());
        for r in &results {
            assert_eq!(r, &results[0]);
        }
    }
}

#[test]
fn repeated_invocation_is_identical() {
    let text = "gccttaacattattacgccta".as_bytes();
    let pattern = "tta".as_bytes();
    assert_eq!(shift_and(pattern, text), shift_and(pattern, text));
    assert_eq!(bndm(pattern, text), bndm(pattern, text));
    assert_eq!(naive_all(pattern, text), naive_all(pattern, text));
    assert_eq!(horspool_all(pattern, text), horspool_all(pattern, text));
    assert_eq!(naive(pattern, text, 4), naive(pattern, text, 4));
    assert_eq!(horspool(pattern, text, 4), horspool(pattern, text, 4));
}

#[test]
fn pattern_longer_than_text_finds_nothing() {
    let text = "ab".as_bytes();
    let pattern = "abc".as_bytes();
    assert_eq!(shift_and(pattern, text), Vec::<usize>::new());
    assert_eq!(bndm(pattern, text), Vec::<usize>::new());
    assert_eq!(naive_all(pattern, text), Vec::<usize>::new());
    assert_eq!(horspool_all(pattern, text), Vec::<usize>::new());
    assert_eq!(naive(pattern, text, 0), None);
    assert_eq!(horspool(pattern, text, 0), None);
}

#[test]
fn pattern_as_long_as_text_matches_only_at_zero() {
    let text = "abc".as_bytes();
    let pattern = "abc".as_bytes();
    for r in all_four(pattern, text) {
        assert_eq!(r, vec![0]);
    }
    let other = "abd".as_bytes();
    for r in all_four(other, text) {
        assert_eq!(r, Vec::<usize>::new());
    }
}

#[test]
fn absent_pattern_yields_empty_result() {
    let text = "gccttaacattattacgccta".as_bytes();
    let pattern = "x".as_bytes();
    for r in all_four(pattern, text) {
        assert_eq!(r, Vec::<usize>::new());
    }
    assert_eq!(naive(pattern, text, 0), None);
    assert_eq!(horspool(pattern, text, 0), None);
}

#[test]
fn overlapping_occurrences_are_all_reported() {
    let text = "aaaa".as_bytes();
    let pattern = "aa".as_bytes();
    for r in all_four(pattern, text) {
        assert_eq!(r, vec![0, 1, 2]);
    }
}

#[test]
fn empty_text_finds_nothing() {
    let text: &[u8] = &[];
    let pattern = "a".as_bytes();
    for r in all_four(pattern, text) {
        assert_eq!(r, Vec::<usize>::new());
    }
}

#[test]
fn single_searches_resume_from_start_index() {
    let text = "gccttaacattattacgccta".as_bytes();
    let pattern = "tta".as_bytes();
    assert_eq!(naive(pattern, text, 0), Some(3));
    assert_eq!(naive(pattern, text, 3), Some(3));
    assert_eq!(naive(pattern, text, 4), Some(9));
    assert_eq!(naive(pattern, text, 10), Some(12));
    assert_eq!(naive(pattern, text, 13), None);
    assert_eq!(horspool(pattern, text, 0), Some(3));
    assert_eq!(horspool(pattern, text, 3), Some(3));
    assert_eq!(horspool(pattern, text, 4), Some(9));
    assert_eq!(horspool(pattern, text, 10), Some(12));
    assert_eq!(horspool(pattern, text, 13), None);
}

#[test]
fn start_index_past_text_end_finds_nothing() {
    let text = "aaa".as_bytes();
    let pattern = "a".as_bytes();
    assert_eq!(naive(pattern, text, 3), None);
    assert_eq!(horspool(pattern, text, 3), None);
    assert_eq!(naive(pattern, text, 1000), None);
    assert_eq!(horspool(pattern, text, 1000), None);
}

#[test]
fn single_byte_pattern_matches_everywhere() {
    let text = "aaa".as_bytes();
    let pattern = "a".as_bytes();
    for r in all_four(pattern, text) {
        assert_eq!(r, vec![0, 1, 2]);
    }
}

#[test]
fn pattern_of_full_word_width_is_supported() {
    let pattern = vec![b'a'; 64];
    let mut text = vec![b'a'; 66];
    text[0] = b'b';
    for r in all_four(&pattern, &text) {
        assert_eq!(r, vec![1, 2]);
    }
}

#[test]
fn repeated_pattern_bytes_set_several_mask_bits() {
    let text = "abaabaab".as_bytes();
    let pattern = "aba".as_bytes();
    for r in all_four(pattern, text) {
        assert_eq!(r, vec![0, 3]);
    }
    let pattern2 = "aab".as_bytes();
    for r in all_four(pattern2, text) {
        assert_eq!(r, vec![2, 5]);
    }
}
