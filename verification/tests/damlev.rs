use fuzzy_regex::damlev::{to_lower_char, ActiveState, DamLevNfa, EditLimits, EditMatch, SimilarityRanks, State};

#[test]
fn damlev_to_lower_char() {
    assert_eq!(to_lower_char('A'), 'a');
    assert_eq!(to_lower_char('z'), 'z');
    assert_eq!(to_lower_char('1'), '1');
    assert_eq!(to_lower_char('É'), 'é');
    // 'İ' lowercases to two characters; the first is kept.
    assert_eq!(to_lower_char('İ'), 'i');
}

#[test]
fn damlev_edit_limits() {
    let l = EditLimits::new(3);
    assert_eq!(l.max_edits, 3);
    assert!(l.max_insertions.is_none() && l.max_deletions.is_none());
    assert!(l.max_substitutions.is_none() && l.max_swaps.is_none());
    let l = EditLimits::with_limits(4, Some(1), None, Some(2), Some(0));
    assert_eq!(l.max_edits, 4);
    assert_eq!(l.max_insertions, Some(1));
    assert_eq!(l.max_deletions, None);
    assert_eq!(l.max_substitutions, Some(2));
    assert_eq!(l.max_swaps, Some(0));
}

#[test]
fn damlev_state_transitions() {
    let s = State::new(2);
    assert_eq!(s.pos, 2);
    assert_eq!(s.total_edits, 0);
    let m = s.advance_match();
    assert_eq!((m.pos, m.total_edits), (3, 0));
    let sub = s.advance_substitution();
    assert_eq!((sub.pos, sub.total_edits, sub.substitutions), (3, 1, 1));
    let del = s.advance_deletion();
    assert_eq!((del.pos, del.total_edits, del.deletions), (3, 1, 1));
    let ins = s.advance_insertion();
    assert_eq!((ins.pos, ins.total_edits, ins.insertions), (2, 1, 1));
    let sw = s.advance_swap();
    assert_eq!((sw.pos, sw.total_edits, sw.swaps), (4, 1, 1));
    assert!(sw.skip_next);
    assert!(!sw.advance_match().skip_next);
}

#[test]
fn damlev_new_keeps_pattern() {
    let nfa = DamLevNfa::new("Hello", EditLimits::new(1), true);
    assert_eq!(nfa.pattern(), "Hello");
}

#[test]
fn damlev_edit_permissions() {
    let nfa = DamLevNfa::new("abc", EditLimits::with_limits(2, Some(1), Some(0), None, Some(1)), false);
    let fresh = State::new(0);
    assert!(nfa.can_insert(&fresh));
    assert!(!nfa.can_delete(&fresh));
    assert!(nfa.can_substitute(&fresh));
    assert!(nfa.can_swap(&fresh));
    let one_ins = fresh.advance_insertion();
    assert!(!nfa.can_insert(&one_ins));
    assert!(nfa.can_substitute(&one_ins));
    let two = one_ins.advance_substitution();
    assert!(!nfa.can_substitute(&two));
    assert!(!nfa.can_swap(&two));
}

#[test]
fn damlev_epsilon_closure_adds_deletions() {
    let nfa = DamLevNfa::new("abc", EditLimits::new(2), false);
    let mut states = vec![ActiveState { state: State::new(0), start_byte: 0, start_char: 0 }];
    let mut seen = Vec::new();
    nfa.epsilon_closure(&mut states, &mut seen);
    assert_eq!(states.len(), 3);
    assert_eq!(states[0].state, State::new(0));
    assert_eq!((states[1].state.pos, states[1].state.deletions), (1, 1));
    assert_eq!((states[2].state.pos, states[2].state.deletions), (2, 2));
    // Running it again from the same seen set adds nothing new.
    let mut again = vec![ActiveState { state: State::new(0), start_byte: 0, start_char: 0 }];
    nfa.epsilon_closure(&mut again, &mut seen);
    assert_eq!(again.len(), 1);
}

#[test]
fn damlev_beam_prune() {
    let nfa = DamLevNfa::new("abc", EditLimits::new(2), false);
    let mut few: Vec<ActiveState> = (0..10)
        .map(|i| ActiveState { state: State::new(i), start_byte: i, start_char: i })
        .collect();
    let before = few.clone();
    nfa.beam_prune(&mut few);
    assert_eq!(few, before);

    let mut many: Vec<ActiveState> = (0..70)
        .map(|i| {
            let mut s = State::new(i);
            s.total_edits = (i % 3) as u8;
            ActiveState { state: s, start_byte: i, start_char: i }
        })
        .collect();
    nfa.beam_prune(&mut many);
    assert_eq!(many.len(), 32);
    assert!(many.windows(2).all(|w| w[0].state.total_edits <= w[1].state.total_edits));
    // 24 of the 70 states have no edits; all of them are kept.
    assert_eq!(many.iter().filter(|a| a.state.total_edits == 0).count(), 24);
}

fn similarity(p: usize, edits: u8, ins: u8, del: u8) -> f32 {
    let p = p as f32;
    if p == 0.0 {
        return 1.0;
    }
    let matched = p + f32::from(ins) - f32::from(del);
    (1.0 - f32::from(edits) / p.max(matched).max(1.0)).max(0.0)
}

fn reachable(p: usize, k: u8, edits: u8, ins: u8, del: u8) -> f32 {
    let p = p as f32;
    if p == 0.0 {
        return 1.0;
    }
    let cur = p + f32::from(ins) - f32::from(del);
    let den = p.max(cur + f32::from(k - edits));
    (1.0 - f32::from(edits) / den).max(0.0)
}

/// The ranks of `threshold` among the automaton's possible scores.
fn ranks(nfa: &DamLevNfa, threshold: f32) -> SimilarityRanks {
    let p = nfa.pattern_char_count();
    let k = nfa.limits().max_edits;
    let mut all = vec![threshold];
    let mut fin = Vec::new();
    let mut rea = Vec::new();
    for e in 0..=k {
        let mut fr = Vec::new();
        let mut rr = Vec::new();
        for x in 0..=(2 * u16::from(k)) {
            let (i, d) = if x >= u16::from(k) { ((x - u16::from(k)) as u8, 0) } else { (0, (u16::from(k) - x) as u8) };
            fr.push(similarity(p, e, i, d));
            rr.push(reachable(p, k, e, i, d));
        }
        all.extend(fr.iter().copied());
        all.extend(rr.iter().copied());
        fin.push(fr);
        rea.push(rr);
    }
    all.sort_by(|a, b| a.partial_cmp(b).unwrap());
    all.dedup();
    let place = |v: f32| all.partition_point(|x| *x < v) as u32;
    SimilarityRanks {
        threshold: place(threshold),
        finished: fin.iter().map(|r| r.iter().map(|v| place(*v)).collect()).collect(),
        reachable: rea.iter().map(|r| r.iter().map(|v| place(*v)).collect()).collect(),
    }
}

fn total(m: &EditMatch) -> u8 {
    m.insertions + m.deletions + m.substitutions + m.swaps
}

fn find_all(nfa: &DamLevNfa, text: &str, threshold: f32) -> Vec<EditMatch> {
    nfa.find_all(text, &ranks(nfa, threshold))
}

#[test]
fn damlev_test_exact_match() {
    let nfa = DamLevNfa::new("hello", EditLimits::new(0), false);
    let matches = find_all(&nfa, "hello world", 0.8);
    assert_eq!(matches.len(), 1);
    assert_eq!(matches[0].start, 0);
    assert_eq!(matches[0].end, 5);
    assert_eq!(total(&matches[0]), 0);
}

#[test]
fn damlev_test_one_substitution() {
    let nfa = DamLevNfa::new("hello", EditLimits::new(1), false);
    let matches = find_all(&nfa, "hallo world", 0.5);
    assert!(matches.iter().any(|m| m.start == 0 && m.end == 5 && m.substitutions == 1));
}

#[test]
fn test_one_insertion() {
    let nfa = DamLevNfa::new("hello", EditLimits::new(1), false);
    let matches = find_all(&nfa, "heello world", 0.5);
    assert!(matches.iter().any(|m| m.start == 0 && m.insertions == 1));
}

#[test]
fn test_one_deletion() {
    let nfa = DamLevNfa::new("hello", EditLimits::new(1), false);
    let matches = find_all(&nfa, "helo world", 0.5);
    assert!(matches.iter().any(|m| m.start == 0 && m.deletions == 1));
}

#[test]
fn damlev_test_case_insensitive() {
    let nfa = DamLevNfa::new("hello", EditLimits::new(0), true);
    let matches = find_all(&nfa, "HELLO world", 0.8);
    assert_eq!(matches.len(), 1);
    assert_eq!(matches[0].start, 0);
    assert_eq!(matches[0].end, 5);
}

#[test]
fn test_multiple_matches() {
    let nfa = DamLevNfa::new("ab", EditLimits::new(0), false);
    let matches = find_all(&nfa, "ab ab ab", 0.8);
    assert_eq!(matches.len(), 3);
}

#[test]
fn test_no_match() {
    let nfa = DamLevNfa::new("xyz", EditLimits::new(1), false);
    let matches = find_all(&nfa, "hello world", 0.8);
    assert!(matches.is_empty());
}

#[test]
fn test_transposition_simple() {
    let nfa = DamLevNfa::new("ab", EditLimits::new(1), false);
    let matches = find_all(&nfa, "ba", 0.0);
    assert!(!matches.is_empty(), "Should find match for transposition");
    let swap_match = matches.iter().find(|m| m.swaps == 1);
    assert!(swap_match.is_some(), "Should find match with 1 swap, got: {matches:?}");
    let m = swap_match.unwrap();
    assert_eq!(m.substitutions, 0, "Should have 0 substitutions");
    assert_eq!(total(m), 1, "Total edits should be 1");
}

#[test]
fn damlev_test_transposition_in_word() {
    let nfa = DamLevNfa::new("the", EditLimits::new(1), false);
    let matches = find_all(&nfa, "teh", 0.0);
    assert!(!matches.is_empty(), "Should find match for 'teh' -> 'the'");
    let m = matches.iter().find(|m| m.swaps == 1);
    assert!(m.is_some(), "Should find match with 1 swap");
}

#[test]
fn test_transposition_longer_word() {
    let nfa = DamLevNfa::new("receive", EditLimits::new(1), false);
    let matches = find_all(&nfa, "recieve", 0.0);
    assert!(!matches.is_empty(), "Should find match for 'recieve' -> 'receive'");
    let swap_match = matches.iter().find(|m| m.swaps == 1);
    assert!(swap_match.is_some(), "Should find match with 1 swap, got: {matches:?}");
}

#[test]
fn test_transposition_with_other_edits() {
    let nfa = DamLevNfa::new("abcd", EditLimits::new(2), false);
    let matches = find_all(&nfa, "badc", 0.0);
    assert!(!matches.is_empty(), "Should find match with 2 swaps");
    let m = matches.iter().find(|m| total(m) == 2);
    assert!(m.is_some(), "Should find match with 2 total edits");
}

#[test]
fn test_transposition_not_same_char() {
    let nfa = DamLevNfa::new("aa", EditLimits::new(1), false);
    let matches = find_all(&nfa, "aa", 0.0);
    assert!(!matches.is_empty());
    let exact = matches.iter().find(|m| total(m) == 0);
    assert!(exact.is_some(), "Should find exact match");
}

#[test]
fn test_transposition_vs_substitution() {
    let nfa = DamLevNfa::new("ab", EditLimits::new(2), false);
    let matches = find_all(&nfa, "ba", 0.0);
    let swap_match = matches.iter().find(|m| m.swaps == 1 && total(m) == 1);
    assert!(swap_match.is_some(), "Should find match with 1 swap, got: {matches:?}");
    let sim = |m: &EditMatch| similarity(2, total(m), m.insertions, m.deletions);
    let best_sim = matches.iter().map(sim).max_by(|a, b| a.partial_cmp(b).unwrap());
    let swap_sim = sim(swap_match.unwrap());
    assert!(swap_sim >= best_sim.unwrap() - 0.01, "Swap match should have high similarity");
}

#[test]
fn test_transposition_case_insensitive() {
    let nfa = DamLevNfa::new("AB", EditLimits::new(1), true);
    let matches = find_all(&nfa, "ba", 0.0);
    assert!(!matches.is_empty(), "Should find case-insensitive transposition");
    let m = matches.iter().find(|m| m.swaps == 1);
    assert!(m.is_some(), "Should find match with 1 swap");
}

#[test]
fn test_find_with_candidates() {
    let nfa = DamLevNfa::new("quik", EditLimits::new(1), false);
    let text = "The quick brown fox";
    let all_positions: Vec<usize> = text.char_indices().map(|(i, _)| i).collect();
    let r = ranks(&nfa, 0.8);
    let matches = nfa.find_all_with_candidates(text, &r, &all_positions);
    println!("All positions candidates: {matches:?}");
    let limited: Vec<usize> = vec![3, 4];
    let matches2 = nfa.find_all_with_candidates(text, &r, &limited);
    println!("Limited candidates (3,4): {matches2:?}");
    let matches3 = nfa.find_all(text, &r);
    println!("find_all: {matches3:?}");
    assert!(!matches.is_empty(), "Should find match with all positions");
    assert!(!matches2.is_empty(), "Should find match with limited positions");
}

#[test]
fn damlev_empty_pattern_matches_at_zero() {
    let nfa = DamLevNfa::new("", EditLimits::new(1), false);
    let m = find_all(&nfa, "abc", 0.99);
    assert_eq!(m, vec![EditMatch { start: 0, end: 0, insertions: 0, deletions: 0, substitutions: 0, swaps: 0 }]);
    assert_eq!(nfa.find_first("abc", &ranks(&nfa, 0.99)), Some(m[0]));
}

#[test]
fn damlev_find_first_prefers_fewest_edits_at_leftmost() {
    // At start 0, "hetlo" (one substitution) beats "hetl" (two edits).
    let nfa = DamLevNfa::new("hello", EditLimits::with_limits(2, Some(1), Some(1), Some(1), None), false);
    let m = nfa.find_first("hetlo", &ranks(&nfa, 0.0)).unwrap();
    assert_eq!((m.start, m.end), (0, 5));
    assert_eq!(total(&m), 1);
    assert_eq!(m.substitutions, 1);
}

#[test]
fn damlev_find_n_non_overlapping() {
    let nfa = DamLevNfa::new("ab", EditLimits::new(0), false);
    let r = ranks(&nfa, 0.8);
    let m = nfa.find_n("ab ab ab", &r, 2);
    assert_eq!(m.len(), 2);
    assert_eq!((m[0].start, m[0].end), (0, 2));
    assert_eq!((m[1].start, m[1].end), (3, 5));
    assert!(nfa.find_n("ab ab ab", &r, 0).is_empty());
}

#[test]
fn damlev_threshold_filters_matches() {
    // One substitution in five characters scores 0.8: admitted at 0.8, not at 0.81.
    let nfa = DamLevNfa::new("hello", EditLimits::new(1), false);
    assert!(find_all(&nfa, "hallo", 0.8).iter().any(|m| m.start == 0 && m.end == 5 && m.substitutions == 1));
    assert!(find_all(&nfa, "hallo", 0.81).is_empty());
}

#[test]
fn damlev_first_with_candidates_stops_early() {
    let nfa = DamLevNfa::new("ab", EditLimits::new(0), false);
    let r = ranks(&nfa, 0.5);
    let m = nfa.find_first_with_candidates("xab ab", &r, &vec![1, 4]).unwrap();
    assert_eq!((m.start, m.end), (1, 3));
    assert!(nfa.find_first_with_candidates("xab ab", &r, &vec![0, 2]).is_none());
}

#[test]
fn damlev_first_found_exactly_when_any_found() {
    let nfa = DamLevNfa::new("hello", EditLimits::new(1), false);
    for text in ["hello world", "say helo", "nothing here", "", "hlelo"] {
        let r = ranks(&nfa, 0.7);
        let all = nfa.find_all(text, &r);
        let first = nfa.find_first(text, &r);
        assert_eq!(first.is_some(), !all.is_empty());
        if let Some(m) = first {
            assert!(all.contains(&m));
        }
        let cands: Vec<usize> = (0..=text.len()).collect();
        let all_c = nfa.find_all_with_candidates(text, &r, &cands);
        let first_c = nfa.find_first_with_candidates(text, &r, &cands);
        assert_eq!(first_c.is_some(), !all_c.is_empty());
    }
}

#[test]
fn damlev_reported_spans_are_not_empty() {
    let nfa = DamLevNfa::new("ab", EditLimits::new(2), false);
    let r = ranks(&nfa, 0.0);
    for m in nfa.find_all("xx ab yy", &r) {
        assert!(m.start < m.end);
    }
}

#[test]
fn damlev_buffered_search_ignores_leftover_buffers() {
    let nfa = DamLevNfa::new("quick", EditLimits::new(1), false);
    let r = ranks(&nfa, 0.8);
    let mut buffers = fuzzy_regex::damlev::SearchBuffers::new();
    let _ = nfa.find_all_buffered("quack quick quiet", &r, &mut buffers);
    let again = nfa.find_all_buffered("the quick fox", &r, &mut buffers);
    assert_eq!(again, nfa.find_all("the quick fox", &r));
}
