use patmatch::single_pattern::bndm::bndm;
use patmatch::single_pattern::horspool::horspool_all;
use patmatch::single_pattern::naive::naive_all;
use patmatch::single_pattern::shift_and::shift_and;

#[test]
fn test_shift_and() {
    let text = "gccttaacattattacgccta".as_bytes();
    let pattern = "tta".as_bytes();

    let mut matches = shift_and(pattern, text);
    matches.sort_unstable();

    let matches_correct = vec![3, 9, 12];

    assert_eq!(matches, matches_correct);
}

#[test]
fn test_bndm() {
    let text = "gccttaacattattacgccta".as_bytes();
    let pattern = "tta".as_bytes();

    let mut matches = bndm(pattern, text);
    matches.sort_unstable();

    let matches_correct = vec![3, 9, 12];

    assert_eq!(matches, matches_correct);
}

#[test]
fn test_horspool_all() {
    let text = "gccttaacattattacgccta".as_bytes();
    let pattern = "tta".as_bytes();

    let mut matches = horspool_all(pattern, text);
    matches.sort_unstable();

    let matches_correct = vec![3, 9, 12];

    assert_eq!(matches, matches_correct);
}

#[test]
fn test_naive_all() {
    let text = "gccttaacattattacgccta".as_bytes();
    let pattern = "tta".as_bytes();

    let mut matches = naive_all(pattern, text);
    matches.sort_unstable();

    let matches_correct = vec![3, 9, 12];

    assert_eq!(matches, matches_correct);
}
