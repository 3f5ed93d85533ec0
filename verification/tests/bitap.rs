use fuzzy_regex::bitap::{BitapMatcher, MultiBitapMatcher, ScoreRanks, MAX_MATCHER_LEN};
use fuzzy_regex::damlev::EditMatch;
use fuzzy_regex::damlev::EditLimits;

/// Reference optimal-string-alignment (restricted Damerau) distance over
/// chars, matching the breakdown DP's transposition rule.
fn reference_osa(pattern: &[char], text: &[char]) -> u16 {
    let m = pattern.len();
    let n = text.len();
    let mut d = vec![vec![0u16; n + 1]; m + 1];
    for (i, row) in d.iter_mut().enumerate() {
        row[0] = i as u16;
    }
    for j in 0..=n {
        d[0][j] = j as u16;
    }
    for i in 1..=m {
        for j in 1..=n {
            let cost = u16::from(pattern[i - 1] != text[j - 1]);
            let mut best = (d[i - 1][j] + 1).min(d[i][j - 1] + 1).min(d[i - 1][j - 1] + cost);
            if i > 1 && j > 1 && pattern[i - 1] == text[j - 2] && pattern[i - 2] == text[j - 1] {
                best = best.min(d[i - 2][j - 2] + 1);
            }
            d[i][j] = best;
        }
    }
    d[m][n]
}

#[test]
fn test_breakdown_is_valid_and_exact() {
    let alpha = ['a', 'b', 'c', 'd', 'é', '中'];
    let mut state: u64 = 0x9e37_79b9_7f4a_7c15;
    let mut next = || {
        state ^= state << 13;
        state ^= state >> 7;
        state ^= state << 17;
        state
    };
    for ci in [false, true] {
        for _ in 0..20_000 {
            let plen = 1 + (next() % 8) as usize;
            let tlen = (next() % 12) as usize;
            let pat: Vec<char> = (0..plen).map(|_| alpha[(next() % alpha.len() as u64) as usize]).collect();
            let txt: Vec<char> = (0..tlen).map(|_| alpha[(next() % alpha.len() as u64) as usize]).collect();
            let pat_s: String = pat.iter().collect();
            let text_s: String = txt.iter().collect();

            // Fold case for the reference when case-insensitive.
            let fold = |v: &[char]| -> Vec<char> {
                if ci {
                    v.iter().map(|c| c.to_ascii_lowercase()).collect()
                } else {
                    v.to_vec()
                }
            };
            let reference = reference_osa(&fold(&pat), &fold(&txt));

            let matcher = BitapMatcher::new(&pat_s, EditLimits::new(4), ci).unwrap();
            let (i, d, s, sw) = matcher.compute_exact_edit_breakdown(text_s.as_bytes());
            let total = u16::from(i) + u16::from(d) + u16::from(s) + u16::from(sw);

            assert_eq!(total, reference, "total != OSA: pat={pat_s:?} text={text_s:?} ci={ci} got {i},{d},{s},{sw}");
            // Valid alignment: net length change matches.
            assert_eq!(
                i as i32 - d as i32,
                txt.len() as i32 - pat.len() as i32,
                "invalid alignment: pat={pat_s:?} text={text_s:?} ci={ci} got {i},{d},{s},{sw}"
            );
            // ASCII distance gate must agree with the breakdown total.
            if let Some(dist) = matcher.compute_damerau_distance(text_s.as_bytes()) {
                assert_eq!(u16::from(dist), total, "gate != breakdown for {pat_s:?}/{text_s:?}");
            }
        }
    }
}

#[test]
fn test_pattern_too_long() {
    let long_pattern = "a".repeat(129);
    let result = BitapMatcher::new(&long_pattern, EditLimits::new(1), false);
    assert!(result.is_none());
}

#[test]
fn bitap_longest_pattern_is_accepted() {
    let pattern = "a".repeat(MAX_MATCHER_LEN);
    assert!(BitapMatcher::new(&pattern, EditLimits::new(1), false).is_some());
    let longer = "a".repeat(MAX_MATCHER_LEN + 1);
    assert!(BitapMatcher::new(&longer, EditLimits::new(1), false).is_none());
}

#[test]
fn bitap_empty_pattern_is_refused() {
    assert!(BitapMatcher::new("", EditLimits::new(1), false).is_none());
}

#[test]
fn bitap_pattern_kept_and_lowercased() {
    let m = BitapMatcher::new("HeLLo", EditLimits::new(1), true).unwrap();
    assert_eq!(m.pattern(), "HeLLo");
    assert_eq!(m.pattern_chars(), &['h', 'e', 'l', 'l', 'o']);
    let m = BitapMatcher::new("HeLLo", EditLimits::new(1), false).unwrap();
    assert_eq!(m.pattern_chars(), &['H', 'e', 'L', 'L', 'o']);
}

#[test]
fn bitap_case_insensitive_length_is_after_lowercasing() {
    // 'İ' lowercases to two characters; 32 of them make 64 characters.
    let pattern = "İ".repeat(32);
    assert!(BitapMatcher::new(&pattern, EditLimits::new(1), false).is_some());
    assert!(BitapMatcher::new(&pattern, EditLimits::new(1), true).is_some());
    let pattern = "İ".repeat(33);
    assert!(BitapMatcher::new(&pattern, EditLimits::new(1), false).is_some());
    assert!(BitapMatcher::new(&pattern, EditLimits::new(1), true).is_none());
}

#[test]
fn bitap_skip_table() {
    let m = BitapMatcher::new("hello", EditLimits::new(1), false).unwrap();
    assert_eq!(m.get_skip(b'h'), 0);
    assert_eq!(m.get_skip(b'l'), 0);
    assert_eq!(m.get_skip(b'H'), 4);
    assert_eq!(m.get_skip(b'z'), 4);
    assert_eq!(m.get_skip(200), 4);
    let ci = BitapMatcher::new("hello", EditLimits::new(1), true).unwrap();
    assert_eq!(ci.get_skip(b'H'), 0);
    assert_eq!(ci.get_skip(b'E'), 0);
    // The skip never drops below one.
    let short = BitapMatcher::new("ab", EditLimits::new(5), false).unwrap();
    assert_eq!(short.get_skip(b'z'), 1);
}

#[test]
fn bitap_find_next_candidate() {
    let m = BitapMatcher::new("hello", EditLimits::new(1), false).unwrap();
    // The first byte at or after the start that occurs in the pattern.
    assert_eq!(m.find_next_candidate(b"zzzzzzzzhello", 0), 8);
    assert_eq!(m.find_next_candidate(b"zzzh", 0), 3);
    assert_eq!(m.find_next_candidate(b"hello", 0), 0);
    assert_eq!(m.find_next_candidate(b"hello", 2), 2);
    assert_eq!(m.find_next_candidate(b"zzzzz", 0), 5);
    assert_eq!(m.find_next_candidate(b"abc", 7), 3);
    assert_eq!(m.find_next_candidate(b"", 0), 0);
    let ab = BitapMatcher::new("ab", EditLimits::new(0), false).unwrap();
    assert_eq!(ab.find_next_candidate(b"xa", 0), 1);
}

#[test]
fn bitap_exact_breakdown_examples() {
    let m = BitapMatcher::new("the", EditLimits::new(2), false).unwrap();
    assert_eq!(m.compute_exact_edit_breakdown(b"the"), (0, 0, 0, 0));
    assert_eq!(m.compute_exact_edit_breakdown(b"teh"), (0, 0, 0, 1));
    assert_eq!(m.compute_exact_edit_breakdown(b"thee"), (1, 0, 0, 0));
    assert_eq!(m.compute_exact_edit_breakdown(b"th"), (0, 1, 0, 0));
    assert_eq!(m.compute_exact_edit_breakdown(b"tha"), (0, 0, 1, 0));
    assert_eq!(m.compute_exact_edit_breakdown(b""), (0, 3, 0, 0));
    // Bytes that are not UTF-8 count as deleting the whole pattern.
    assert_eq!(m.compute_exact_edit_breakdown(&[0xff, 0xfe]), (0, 3, 0, 0));
}

#[test]
fn bitap_exact_breakdown_case_folding() {
    let ci = BitapMatcher::new("the", EditLimits::new(2), true).unwrap();
    assert_eq!(ci.compute_exact_edit_breakdown(b"THE"), (0, 0, 0, 0));
    let cs = BitapMatcher::new("the", EditLimits::new(2), false).unwrap();
    assert_eq!(cs.compute_exact_edit_breakdown(b"THE"), (0, 0, 3, 0));
}

#[test]
fn bitap_damerau_distance_gate() {
    let m = BitapMatcher::new("hello", EditLimits::new(2), false).unwrap();
    assert_eq!(m.compute_damerau_distance(b"hello"), Some(0));
    assert_eq!(m.compute_damerau_distance(b"hlelo"), Some(1));
    assert_eq!(m.compute_damerau_distance(b"help"), Some(2));
    assert_eq!(m.compute_damerau_distance(b""), Some(5));
    assert_eq!(m.compute_damerau_distance(&[0xff]), None);
    // A window of 72 ASCII bytes exceeds the limit for an ASCII pattern.
    assert_eq!(m.compute_damerau_distance("a".repeat(71).as_bytes()), Some(71));
    assert_eq!(m.compute_damerau_distance("a".repeat(72).as_bytes()), None);
    // Otherwise up to 72 characters are accepted.
    let mut text = "a".repeat(71);
    text.push('é');
    assert_eq!(m.compute_damerau_distance(text.as_bytes()), Some(72));
    text.push('é');
    assert_eq!(m.compute_damerau_distance(text.as_bytes()), None);
}

#[test]
fn bitap_damerau_distance_non_ascii_pattern() {
    let m = BitapMatcher::new("héllo", EditLimits::new(2), false).unwrap();
    assert_eq!(m.compute_damerau_distance("héllo".as_bytes()), Some(0));
    assert_eq!(m.compute_damerau_distance("hello".as_bytes()), Some(1));
    // A 72-byte ASCII window is accepted for a non-ASCII pattern.
    assert!(m.compute_damerau_distance("a".repeat(72).as_bytes()).is_some());
}

#[test]
fn multi_bitap_new_and_accessors() {
    let mm = MultiBitapMatcher::new(&["cat", "horse"], &EditLimits::new(1), false).unwrap();
    assert_eq!(mm.pattern_count(), 2);
    assert_eq!(mm.pattern(0), Some("cat"));
    assert_eq!(mm.pattern(1), Some("horse"));
    assert_eq!(mm.pattern(2), None);
    assert_eq!(mm.breakdown(1, b"hors"), (0, 1, 0, 0));
    assert_eq!(mm.breakdown(0, b"act"), (0, 0, 0, 1));
}

#[test]
fn multi_bitap_refuses_bad_pattern_sets() {
    assert!(MultiBitapMatcher::new(&[], &EditLimits::new(1), false).is_none());
    assert!(MultiBitapMatcher::new(&["cat", ""], &EditLimits::new(1), false).is_none());
    let long = "x".repeat(200);
    assert!(MultiBitapMatcher::new(&["cat", long.as_str()], &EditLimits::new(1), false).is_none());
}

fn similarity(p: usize, edits: u8, ins: u8, del: u8) -> f32 {
    let p = p as f32;
    let matched = p + f32::from(ins) - f32::from(del);
    (1.0 - f32::from(edits) / p.max(matched).max(1.0)).max(0.0)
}

/// The ranks of `threshold` among the matcher's possible scores.
fn ranks(m: &BitapMatcher, threshold: f32) -> ScoreRanks {
    let p = m.pattern_chars().len();
    let k = m.limits().max_edits;
    let eff = usize::from(k).min(p);
    let mut all = vec![threshold];
    let mut fin = Vec::new();
    for e in 0..=k {
        let mut row = Vec::new();
        for y in 0..=(eff + 1) {
            row.push(similarity(p, e, y as u8, 0));
        }
        all.extend(row.iter().copied());
        fin.push(row);
    }
    let lv: Vec<f32> = (0..=eff).map(|d| 1.0f32 - d as f32 / (p + d) as f32).collect();
    all.extend(lv.iter().copied());
    all.sort_by(|a, b| a.partial_cmp(b).unwrap());
    all.dedup();
    let place = |v: f32| all.partition_point(|x| *x < v) as u32;
    ScoreRanks {
        threshold: place(threshold),
        finished: fin.iter().map(|r| r.iter().map(|v| place(*v)).collect()).collect(),
        level: lv.iter().map(|v| place(*v)).collect(),
    }
}

fn edits(m: &EditMatch) -> u8 {
    m.insertions + m.deletions + m.substitutions + m.swaps
}

#[test]
fn bitap_test_exact_match() {
    let matcher = BitapMatcher::new("hello", EditLimits::new(0), false).unwrap();
    let matches = matcher.find_all("hello world", &ranks(&matcher, 0.8));
    assert!(!matches.is_empty());
    assert!(matches.iter().any(|m| m.start == 0 && edits(m) == 0));
}

#[test]
fn bitap_test_one_substitution() {
    let matcher = BitapMatcher::new("hello", EditLimits::new(1), false).unwrap();
    let matches = matcher.find_all("hallo world", &ranks(&matcher, 0.5));
    assert!(!matches.is_empty());
    assert!(matches.iter().any(|m| m.start == 0));
}

#[test]
fn test_find_first() {
    let matcher = BitapMatcher::new("quick", EditLimits::new(1), false).unwrap();
    let result = matcher.find_first("The quick brown fox", &ranks(&matcher, 0.8));
    assert!(result.is_some());
    let m = result.unwrap();
    assert_eq!(m.start, 4);
}

#[test]
fn bitap_test_case_insensitive() {
    let matcher = BitapMatcher::new("hello", EditLimits::new(0), true).unwrap();
    let matches = matcher.find_all("HELLO world", &ranks(&matcher, 0.8));
    assert!(!matches.is_empty());
}

#[test]
fn bitap_find_all_reports_exact_breakdowns() {
    let matcher = BitapMatcher::new("hello", EditLimits::new(1), false).unwrap();
    let text = "say hallo";
    for m in matcher.find_all(text, &ranks(&matcher, 0.0)) {
        let (i, d, s, w) = matcher.compute_exact_edit_breakdown(&text.as_bytes()[m.start..m.end]);
        assert_eq!((m.insertions, m.deletions, m.substitutions, m.swaps), (i, d, s, w));
        assert!(edits(&m) <= 1);
    }
}

#[test]
fn bitap_non_overlapping_matches_in_order() {
    let matcher = BitapMatcher::new("ab", EditLimits::new(0), false).unwrap();
    let r = ranks(&matcher, 0.5);
    let all = matcher.find_all_non_overlapping("ab ab ab", &r, false);
    let spans: Vec<(usize, usize)> = all.iter().map(|m| (m.start, m.end)).collect();
    assert_eq!(spans, vec![(0, 2), (3, 5), (6, 8)]);
    let two = matcher.find_n_non_overlapping("ab ab ab", &r, false, 2);
    assert_eq!(two.len(), 2);
}

#[test]
fn bitap_first_char_filter() {
    let matcher = BitapMatcher::new("lorem", EditLimits::new(1), false).unwrap();
    let r = ranks(&matcher, 0.0);
    for m in matcher.find_all_non_overlapping("bore lorem", &r, true) {
        assert_eq!(&"bore lorem"[m.start..m.start + 1], "l");
    }
    let best = matcher.find_best_non_overlapping("Lorem ipsum lorem", &r, false);
    assert!(best.windows(2).all(|w| w[0].end <= w[1].start));
    assert!(best.iter().any(|m| (m.start, m.end) == (12, 17) && edits(m) == 0));
}

#[test]
fn bitap_empty_text_all_deletions() {
    let matcher = BitapMatcher::new("ab", EditLimits::new(2), false).unwrap();
    let m = matcher.find_all_non_overlapping("", &ranks(&matcher, 0.0), false);
    assert_eq!(m, vec![EditMatch { start: 0, end: 0, insertions: 0, deletions: 2, substitutions: 0, swaps: 0 }]);
    assert!(matcher.find_all_non_overlapping("", &ranks(&matcher, 0.5), false).is_empty());
}

#[test]
fn bitap_streaming_exact_and_fuzzy() {
    let matcher = BitapMatcher::new("quick", EditLimits::new(1), false).unwrap();
    let r = ranks(&matcher, 0.5);
    let m = matcher.find_first_streaming("The quick brown fox", &r).unwrap();
    assert_eq!((m.start, m.end, edits(&m)), (4, 9, 0));
    let m = matcher.find_first_streaming("The quack brown fox", &r).unwrap();
    assert_eq!(m.start, 4);
    assert_eq!(edits(&m), 1);
    assert!(matcher.find_first_streaming("nothing here", &ranks(&matcher, 0.9)).is_none());
}

#[test]
fn bitap_streaming_exact_after_a_partial_start() {
    // The first 'a' starts a partial match that the second one restarts.
    let matcher = BitapMatcher::new("ab", EditLimits::new(0), false).unwrap();
    let m = matcher.find_first_streaming("aab", &ranks(&matcher, 1.0)).unwrap();
    assert_eq!((m.start, m.end, edits(&m)), (1, 3, 0));
    let folded = BitapMatcher::new("AB", EditLimits::new(0), true).unwrap();
    let m = folded.find_first_streaming("xaAb", &ranks(&folded, 1.0)).unwrap();
    assert_eq!((m.start, m.end, edits(&m)), (2, 4, 0));
}

#[test]
fn bitap_streaming_large_budget() {
    let matcher = BitapMatcher::new("hello", EditLimits::new(6), false).unwrap();
    let r = ranks(&matcher, 0.7);
    let m = matcher.find_first_streaming("say hello there", &r).unwrap();
    assert_eq!((m.start, m.end, edits(&m)), (4, 9, 0));
}

#[test]
fn bitap_streaming_non_ascii() {
    // The exact span is five bytes for four characters; level zero reports
    // the last four characters.
    let matcher = BitapMatcher::new("café", EditLimits::new(1), false).unwrap();
    let r = ranks(&matcher, 0.5);
    let m = matcher.find_first_streaming("un café noir", &r).unwrap();
    assert_eq!(&"un café noir"[m.start..m.end], "café");
    assert_eq!(edits(&m), 0);
}

#[test]
fn bitap_first_non_overlapping_ascii_and_general() {
    let matcher = BitapMatcher::new("quick", EditLimits::new(1), false).unwrap();
    let r = ranks(&matcher, 0.8);
    let m = matcher.find_first_non_overlapping("The quick brown fox", &r).unwrap();
    assert_eq!((m.start, m.end), (4, 9));
    let wide = BitapMatcher::new("quick", EditLimits::new(5), false).unwrap();
    let m = wide.find_first_non_overlapping("The quick brown fox", &ranks(&wide, 0.8)).unwrap();
    assert_eq!((m.start, m.end), (4, 9));
}

#[test]
fn test_transposition_match() {
    let matcher = BitapMatcher::new("ab", EditLimits::new(1), false).unwrap();
    let result = matcher.find_at_byte_position("ba", 0, &ranks(&matcher, 0.5));
    assert!(result.is_some(), "Should find transposition match");
    let m = result.unwrap();
    assert_eq!(edits(&m), 1, "Transposition should count as 1 edit");
}

#[test]
fn bitap_test_transposition_in_word() {
    let matcher = BitapMatcher::new("the", EditLimits::new(1), false).unwrap();
    let result = matcher.find_at_byte_position("teh quick brown", 0, &ranks(&matcher, 0.5));
    assert!(result.is_some(), "Should find transposition match for 'teh'");
    let m = result.unwrap();
    assert_eq!(edits(&m), 1, "Should be 1 edit for transposition");
}

#[test]
fn test_transposition_vs_two_substitutions() {
    let matcher = BitapMatcher::new("ab", EditLimits::new(1), false).unwrap();
    let result = matcher.find_at_byte_position("ba", 0, &ranks(&matcher, 0.0));
    assert!(result.is_some(), "Transposition should allow match with 1 edit");
}

#[test]
fn bitap_anchored_search_paths() {
    // Past the end: the all-deletions match when the budget allows it.
    let short = BitapMatcher::new("ab", EditLimits::new(2), false).unwrap();
    let m = short.find_at_byte_position("xy", 2, &ranks(&short, 0.0)).unwrap();
    assert_eq!((m.start, m.end, m.deletions), (2, 2, 2));
    let strict = BitapMatcher::new("abc", EditLimits::new(2), false).unwrap();
    assert!(strict.find_at_byte_position("xy", 5, &ranks(&strict, 0.0)).is_none());

    // ASCII path: exact match anchored at a later byte.
    let ascii = BitapMatcher::new("quick", EditLimits::new(1), false).unwrap();
    // The first step at which a level reaches the end wins: one deletion
    // after "quic" already scores 0.8.
    let m = ascii.find_at_byte_position("The quick brown", 4, &ranks(&ascii, 0.8)).unwrap();
    assert_eq!((m.start, m.end, m.deletions), (4, 8, 1));
    let m = ascii.find_at_byte_position("The quick brown", 4, &ranks(&ascii, 0.9)).unwrap();
    assert_eq!((m.start, m.end, edits(&m)), (4, 9, 0));
    assert!(ascii.find_at_byte_position("The quick brown", 0, &ranks(&ascii, 0.8)).is_none());

    // General path: a non-ASCII pattern over multi-byte text.
    let wide = BitapMatcher::new("héllo", EditLimits::new(1), false).unwrap();
    let text = "a héllo";
    let m = wide.find_at_byte_position(text, 2, &ranks(&wide, 0.9)).unwrap();
    assert_eq!((m.start, m.end, edits(&m)), (2, 8, 0));

    // Large budget path: levels whose best score misses the threshold are skipped.
    let big = BitapMatcher::new("abcdef", EditLimits::new(5), false).unwrap();
    let m = big.find_at_byte_position("abcxef", 0, &ranks(&big, 0.8)).unwrap();
    assert_eq!((m.start, m.end, m.substitutions), (0, 6, 1));
}

#[test]
fn bitap_exact_occurrences_are_found() {
    let matcher = BitapMatcher::new("hello", EditLimits::new(1), false).unwrap();
    let text = "say hello, héllo";
    let rk = ranks(&matcher, 0.8);
    let all = matcher.find_all(text, &rk);
    assert!(all.iter().any(|m| m.start == 4 && m.end == 9));
    assert!(!matcher.find_best_non_overlapping(text, &rk, false).is_empty());
    assert!(!matcher.find_all_non_overlapping(text, &rk, true).is_empty());
    assert!(matcher.find_first(text, &rk).is_some());
    assert!(matcher.find_first_non_overlapping(text, &rk).is_some());
    // Empty text: the all-deletions match only when the budget covers the pattern.
    assert!(matcher.find_first("", &rk).is_none());
    let short = BitapMatcher::new("ab", EditLimits::new(2), false).unwrap();
    let m = short.find_first_streaming("", &ranks(&short, 0.0)).unwrap();
    assert_eq!((m.start, m.end, m.deletions), (0, 0, 2));
}

#[test]
fn bitap_first_with_candidates() {
    let matcher = BitapMatcher::new("quick", EditLimits::new(1), false).unwrap();
    let r = ranks(&matcher, 0.9);
    let text = "The quick brown quick fox";
    // Tried in increasing order: 16 gives nothing earlier than 4 would.
    let m = matcher.find_first_with_candidates(text, &r, &vec![16, 4]).unwrap();
    assert_eq!((m.start, m.end, edits(&m)), (4, 9, 0));
    let m = matcher.find_first_with_candidates(text, &r, &vec![0, 16]).unwrap();
    assert_eq!((m.start, m.end, edits(&m)), (16, 21, 0));
    assert!(matcher.find_first_with_candidates(text, &r, &vec![]).is_none());
    assert!(matcher.find_first_with_candidates("", &r, &vec![0]).is_none());
    // Positions past the text start nothing.
    assert!(matcher.find_first_with_candidates(text, &r, &vec![100]).is_none());
    // At a lower threshold the anchored search stops at the first window
    // that qualifies: "quic" with one deletion.
    let low = ranks(&matcher, 0.8);
    let m = matcher.find_first_with_candidates(text, &low, &vec![4]).unwrap();
    assert_eq!((m.start, m.end, edits(&m)), (4, 8, 1));
}

#[test]
fn bitap_at_positions_in_turn() {
    let matcher = BitapMatcher::new("quick", EditLimits::new(1), false).unwrap();
    let r = ranks(&matcher, 0.9);
    let text = "The quick brown quick fox";
    let (i, m) = matcher.find_at_positions_parallel(text, &vec![0, 16, 4], &r).unwrap();
    assert_eq!(i, 1);
    assert_eq!((m.start, m.end, edits(&m)), (16, 21, 0));
    assert!(matcher.find_at_positions_parallel(text, &vec![0], &r).is_none());
    assert!(matcher.find_at_positions_parallel(text, &vec![], &r).is_none());
}
