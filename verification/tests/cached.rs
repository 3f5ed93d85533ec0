use fuzzy_regex::cached::{CachedMatches, FuzzyMatchResult};

fn result(end: usize, insertions: u8, deletions: u8, substitutions: u8, swaps: u8) -> FuzzyMatchResult {
    FuzzyMatchResult { end, similarity_place: 0, insertions, deletions, substitutions, swaps }
}

#[test]
fn cached_matches_keep_insertion_order() {
    let mut cache = CachedMatches::default();
    assert!(cache.is_empty());
    assert_eq!(cache.get(0, 3), None);
    cache.insert(0, 3, result(8, 0, 0, 1, 0));
    cache.insert(0, 3, result(9, 1, 0, 0, 0));
    cache.insert(1, 3, result(7, 0, 0, 0, 0));
    assert!(!cache.is_empty());
    assert_eq!(cache.get(0, 3), Some(&result(8, 0, 0, 1, 0)));
    assert_eq!(cache.get_all(0, 3), Some(&[result(8, 0, 0, 1, 0), result(9, 1, 0, 0, 0)][..]));
    assert_eq!(cache.get_all(1, 3), Some(&[result(7, 0, 0, 0, 0)][..]));
    assert_eq!(cache.get_all(1, 4), None);
    let keys: Vec<(usize, usize)> = cache.iter().iter().map(|(k, _)| *k).collect();
    assert_eq!(keys, vec![(0, 3), (1, 3)]);
}

#[test]
fn cached_matches_shifted() {
    let mut cache = CachedMatches::new();
    cache.insert(0, 2, result(5, 0, 0, 0, 0));
    cache.insert(1, 0, result(3, 0, 1, 0, 0));
    let moved = cache.shifted(10);
    assert_eq!(moved.get_all(0, 12), Some(&[result(15, 0, 0, 0, 0)][..]));
    assert_eq!(moved.get_all(1, 10), Some(&[result(13, 0, 1, 0, 0)][..]));
    assert_eq!(moved.get(0, 2), None);
    let same = moved.shifted(0);
    assert_eq!(same.get(1, 10), Some(&result(13, 0, 1, 0, 0)));
}

#[test]
fn fuzzy_match_result_total_edits_saturates() {
    assert_eq!(result(0, 1, 2, 3, 4).total_edits(), 10);
    assert_eq!(result(0, 200, 100, 0, 0).total_edits(), 255);
}
