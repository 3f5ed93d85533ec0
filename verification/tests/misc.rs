use fuzzy_regex::damlev::EditLimits;
use fuzzy_regex::damlev::EditMatch;
use fuzzy_regex::fuzzy_nfa::{EditRanks, FuzzyNfa};
use fuzzy_regex::guard_nfa::{GuardHit, GuardNfa};
use fuzzy_regex::hash::FxHasher;
use fuzzy_regex::nfa::{named_class_matches, CharClass, ClassKind, NamedClass, Nfa, State};
use fuzzy_regex::simd_class::{AsciiClassBitmap, RevSearchRanges, TeddySearch};
use fuzzy_regex::state_set::{ext_eq, ext_less, set_contains, set_copy, set_equal, set_insert, ExtState};

#[test]
fn fx_hash_values() {
    let mut h = FxHasher::new();
    assert_eq!(h.finish(), 0);
    h.write(b"a");
    assert_eq!(h.finish(), 16160435425421689461);
    h.write(b"b");
    assert_eq!(h.finish(), 57998870784676662);
    let mut g = FxHasher::new();
    g.write(b"hello");
    assert_eq!(g.finish(), 3502963313126470129);
    // Writing in pieces is the same as writing at once.
    let mut a = FxHasher::new();
    a.write(b"he");
    a.write(b"llo");
    assert_eq!(a.finish(), g.finish());
}

fn class(chars: Vec<char>, ranges: Vec<(char, char)>, named: Vec<NamedClass>, negated: bool) -> CharClass {
    CharClass { chars, ranges, named, negated }
}

#[test]
fn char_class_membership() {
    let c = class(vec!['x'], vec![('a', 'c')], vec![NamedClass::Digit], false);
    assert!(c.matches('x'));
    assert!(c.matches('b'));
    assert!(c.matches('7'));
    assert!(!c.matches('d'));
    let n = class(vec!['\n'], vec![], vec![], true);
    assert!(n.matches('a'));
    assert!(!n.matches('\n'));
}

#[test]
fn named_classes() {
    assert!(named_class_matches(NamedClass::Digit, '5'));
    assert!(!named_class_matches(NamedClass::Digit, 'a'));
    assert!(named_class_matches(NamedClass::Word, '_'));
    assert!(named_class_matches(NamedClass::NotWord, '-'));
    assert!(named_class_matches(NamedClass::Whitespace, '\t'));
    assert!(named_class_matches(NamedClass::NotWhitespace, 'q'));
    assert!(named_class_matches(NamedClass::NotDigit, 'q'));
}

fn plus_nfa(named: NamedClass) -> Nfa {
    // 0: accept, 1: class, 2: split back to 1 or on to 0.
    Nfa {
        states: vec![
            State::Accept,
            State::Char { class: class(vec![], vec![], vec![named], false), next: 2 },
            State::Split { branches: vec![1, 0] },
        ],
        start: 1,
    }
}

#[test]
fn nfa_char_class_plus_shape() {
    let nfa = plus_nfa(NamedClass::Digit);
    assert!(nfa.is_char_class_plus());
    assert_eq!(nfa.get_char_class_type(), Some(ClassKind::Digit));
    let word = plus_nfa(NamedClass::Word);
    assert_eq!(word.get_char_class_type(), Some(ClassKind::Word));
    let single = Nfa {
        states: vec![State::Accept, State::Char { class: class(vec!['a'], vec![], vec![], false), next: 0 }],
        start: 1,
    };
    assert!(!single.is_char_class_plus());
    assert_eq!(single.get_char_class_type(), None);
}

#[test]
fn ascii_bitmap_follows_class() {
    let bm = AsciiClassBitmap::from_hir_class(&class(vec![], vec![('0', '9')], vec![], false));
    assert_eq!(bm.bits.len(), 128);
    assert!(bm.contains(b'3'));
    assert!(!bm.contains(b'a'));
}

#[test]
fn range_search() {
    let r = RevSearchRanges::new(vec![(b'0', b'9'), (b'x', b'z')]);
    assert!(r.matches_byte(b'5'));
    assert!(r.matches_byte(b'y'));
    assert!(!r.matches_byte(b'a'));
    assert_eq!(r.find_first(b"ab3cd9y"), Some(2));
    assert_eq!(r.find_last(b"ab3cd9y"), Some(6));
    assert_eq!(r.find_first(b"abc"), None);
    assert_eq!(r.find_last(b""), None);
}

#[test]
fn literal_search() {
    let t = TeddySearch::new(b"abc");
    assert_eq!(t.find_first(b"xxabcyyabc"), Some(2));
    assert_eq!(t.find_last(b"xxabcyyabc"), Some(7));
    assert_eq!(t.find_first(b"ababab"), None);
}

#[test]
fn ext_state_sets() {
    let a = ExtState::new(3);
    let b = ExtState::with_offset(3, 2);
    assert!(ext_eq(a, ExtState::new(3)));
    assert!(!ext_eq(a, b));
    assert!(ext_less(a, b));
    assert!(!ext_less(b, a));
    let mut set = Vec::new();
    set_insert(&mut set, b);
    set_insert(&mut set, a);
    set_insert(&mut set, b);
    assert_eq!(set.len(), 2);
    assert!(set_contains(&set, a));
    assert!(!set_contains(&set, ExtState::new(9)));
    let copy = set_copy(&set);
    assert!(set_equal(&set, &copy));
    set_insert(&mut set, ExtState::new(0));
    assert!(!set_equal(&set, &copy));
}

#[test]
fn fuzzy_nfa_new_limits() {
    assert!(FuzzyNfa::new("", EditLimits::new(1), false).is_none());
    assert!(FuzzyNfa::new("hello", EditLimits::new(1), false).is_some());
    assert!(FuzzyNfa::new(&"a".repeat(63), EditLimits::new(1), false).is_some());
    assert!(FuzzyNfa::new(&"a".repeat(64), EditLimits::new(1), false).is_none());
}

fn hit(start: usize, end: usize, insertions: u8, deletions: u8, substitutions: u8, edits: usize) -> GuardHit {
    GuardHit { start, end, insertions, deletions, substitutions, edits }
}

#[test]
fn guard_nfa_empty_pattern_matches_at_start() {
    let g = GuardNfa::new("", EditLimits::new(1), false);
    assert_eq!(g.similarity_scale(), 1);
    assert_eq!(g.find_first_hit("abc", &[true, true]), Some(hit(0, 0, 0, 0, 0, 0)));
}

#[test]
fn guard_nfa_single_char_pattern() {
    let g = GuardNfa::new("a", EditLimits::new(1), false);
    assert_eq!(g.similarity_scale(), 2);
    // Only exact matches admitted: the first 'a'.
    assert_eq!(g.find_first_hit("xay", &[true, false]), Some(hit(1, 2, 0, 0, 0, 0)));
    // One substitution admitted: the very first character.
    assert_eq!(g.find_first_hit("xay", &[true, true]), Some(hit(0, 1, 0, 0, 1, 1)));
    assert_eq!(g.find_first_hit("xyz", &[true, false]), None);
}

#[test]
fn guard_nfa_trailing_deletions() {
    let g = GuardNfa::new("ab", EditLimits::new(3), false);
    // The last character starts the pattern; the rest of it is deleted.
    assert_eq!(g.find_first_hit("a", &[true, true, true, true]), Some(hit(0, 1, 0, 1, 0, 1)));
    assert_eq!(g.find_first_hit("a", &[true, false, false, false]), None);
    let long = GuardNfa::new("hello", EditLimits::new(2), false);
    assert_eq!(long.find_first_hit("xyz", &[true, true, true]), None);
}

#[test]
fn guard_nfa_empty_text() {
    let g = GuardNfa::new("ab", EditLimits::new(3), false);
    assert_eq!(g.find_first_hit("", &[false, false, false, false]), Some(hit(0, 0, 0, 2, 0, 2)));
    let strict = GuardNfa::new("ab", EditLimits::new(1), false);
    assert_eq!(strict.find_first_hit("", &[true, true]), None);
}

#[test]
fn guard_nfa_case_insensitive_and_guard_skip() {
    let g = GuardNfa::new("Q", EditLimits::new(0), true);
    assert_eq!(g.find_first_hit("xxxxq", &[true]), Some(hit(4, 5, 0, 0, 0, 0)));
    assert_eq!(g.find_first_hit("xxxxQ", &[true]), Some(hit(4, 5, 0, 0, 0, 0)));
    assert_eq!(g.find_first_hit("xxxx", &[true]), None);
}

#[test]
fn guard_nfa_spans_are_byte_offsets() {
    let g = GuardNfa::new("a", EditLimits::new(0), false);
    assert_eq!(g.find_first_hit("éa", &[true]), Some(hit(2, 3, 0, 0, 0, 0)));
    assert_eq!(g.find_first_hit("ééé", &[true]), None);
}

#[test]
fn guard_nfa_runs_continue_across_characters() {
    let g = GuardNfa::new("ab", EditLimits::new(0), false);
    assert_eq!(g.find_first_hit("ab", &[true]), Some(hit(0, 2, 0, 0, 0, 0)));
    assert_eq!(g.find_first_hit("xxab", &[true]), Some(hit(2, 4, 0, 0, 0, 0)));
    let hello = GuardNfa::new("hello", EditLimits::new(1), false);
    // Zero edits only: the exact occurrence.
    assert_eq!(hello.find_first_hit("say hello", &[true, false]), Some(hit(4, 9, 0, 0, 0, 0)));
    // One edit admitted: the run that started a character earlier, with the
    // space inserted, completes at the same character and comes first.
    assert_eq!(hello.find_first_hit("say hello", &[true, true]), Some(hit(3, 9, 1, 0, 0, 1)));
}

/// The score places of the compact automaton for `threshold`.
fn nfa_ranks(nfa: &FuzzyNfa, threshold: f32) -> EditRanks {
    let m = nfa.pattern_len();
    let k = usize::from(nfa.limits().max_edits);
    let scores: Vec<f32> = (0..=k).map(|e| 1.0 - e as f32 / (m + k) as f32).collect();
    let mut all = scores.clone();
    all.push(threshold);
    all.sort_by(|a, b| a.partial_cmp(b).unwrap());
    all.dedup();
    let place = |v: f32| all.partition_point(|x| *x < v) as u32;
    EditRanks { threshold: place(threshold), by_edits: scores.iter().map(|v| place(*v)).collect() }
}

fn span(start: usize, end: usize, ins: u8, del: u8, sub: u8) -> EditMatch {
    EditMatch { start, end, insertions: ins, deletions: del, substitutions: sub, swaps: 0 }
}

#[test]
fn fuzzy_nfa_empty_text() {
    let nfa = FuzzyNfa::new("ab", EditLimits::new(2), false).unwrap();
    assert_eq!(nfa.find_first("", &nfa_ranks(&nfa, 0.9)), Some(span(0, 0, 0, 2, 0)));
    let strict = FuzzyNfa::new("ab", EditLimits::new(1), false).unwrap();
    assert_eq!(strict.find_first("", &nfa_ranks(&strict, 0.0)), None);
}

#[test]
fn fuzzy_nfa_single_character_pattern() {
    let exact = FuzzyNfa::new("a", EditLimits::new(0), false).unwrap();
    assert_eq!(exact.find_first("xxa", &nfa_ranks(&exact, 0.5)), Some(span(2, 3, 0, 0, 0)));
    assert_eq!(exact.find_first("xxx", &nfa_ranks(&exact, 0.5)), None);
    // A substitution at the very first character already scores 0.5.
    let fuzzy = FuzzyNfa::new("a", EditLimits::new(1), false).unwrap();
    assert_eq!(fuzzy.find_first("xa", &nfa_ranks(&fuzzy, 0.0)), Some(span(0, 1, 0, 0, 1)));
    assert_eq!(fuzzy.find_first("xa", &nfa_ranks(&fuzzy, 0.9)), Some(span(1, 2, 0, 0, 0)));
    // Multi-byte text: spans are byte offsets.
    assert_eq!(exact.find_first("éa", &nfa_ranks(&exact, 0.5)), Some(span(2, 3, 0, 0, 0)));
    // Only two edits score high enough: an insertion and a substitution.
    let wide = FuzzyNfa::new("a", EditLimits::new(2), false).unwrap();
    let only_two = EditRanks { threshold: 5, by_edits: vec![0, 0, 5] };
    assert_eq!(wide.find_first("xyz", &only_two), Some(span(0, 2, 1, 0, 1)));
    assert_eq!(wide.find_first("xyz", &nfa_ranks(&wide, 0.5)), Some(span(0, 1, 0, 0, 1)));
}

#[test]
fn fuzzy_nfa_longer_patterns() {
    let nfa = FuzzyNfa::new("ab", EditLimits::new(1), false).unwrap();
    assert_eq!(nfa.find_first("xa", &nfa_ranks(&nfa, 0.5)), Some(span(1, 2, 0, 1, 0)));
    assert_eq!(nfa.find_first("xa", &nfa_ranks(&nfa, 0.9)), None);
    let folded = FuzzyNfa::new("AB", EditLimits::new(1), true).unwrap();
    assert_eq!(folded.find_first("XA", &nfa_ranks(&folded, 0.5)), Some(span(1, 2, 0, 1, 0)));
    let exact = FuzzyNfa::new("ab", EditLimits::new(0), false).unwrap();
    assert_eq!(exact.find_first("ab", &nfa_ranks(&exact, 1.0)), Some(span(0, 2, 0, 0, 0)));
    assert_eq!(exact.find_first("xxab", &nfa_ranks(&exact, 1.0)), Some(span(2, 4, 0, 0, 0)));
    let hello = FuzzyNfa::new("hello", EditLimits::new(1), false).unwrap();
    assert_eq!(hello.find_first("say hello", &nfa_ranks(&hello, 0.95)), Some(span(4, 9, 0, 0, 0)));
    assert_eq!(hello.find_first("say hello", &nfa_ranks(&hello, 0.5)), Some(span(3, 9, 1, 0, 0)));
    // Two substitutions.
    let sub = FuzzyNfa::new("ab", EditLimits::new(2), false).unwrap();
    assert_eq!(sub.find_first("xy", &nfa_ranks(&sub, 0.5)), Some(span(0, 2, 0, 0, 2)));
}
