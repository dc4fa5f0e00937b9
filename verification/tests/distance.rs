//! The distance between texts, as the search measures it.

use org_core::search::field_match_lowered;

/// The least budget at which `word` matches `q` without holding it.
fn distance(word: &str, q: &str) -> usize {
    (1..10)
        .find(|&b| field_match_lowered(word, q, b) == Some(0))
        .unwrap()
}

#[test]
fn edits_are_counted_one_by_one() {
    assert_eq!(distance("kitten", "sitting"), 3);
    assert_eq!(distance("trent", "treny"), 1);
    assert_eq!(distance("trent", "trennt"), 1);
    assert_eq!(distance("rush", "rusjh"), 1);
    assert_eq!(distance("abcd", "abdc"), 2);
    assert_eq!(distance("flaw", "lawn"), 2);
    assert_eq!(distance("ärger", "arger"), 1);
}

#[test]
fn distance_goes_both_ways() {
    for (a, b) in [("kitten", "sitting"), ("saturday", "sunday"), ("a", "xyz")] {
        assert_eq!(distance(a, b), distance(b, a));
    }
}
