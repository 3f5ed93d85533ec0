use fuzzy_regex::dfa::Dfa;
use fuzzy_regex::nfa::{CharClass, FuzzyLimits, NamedClass, Nfa, State};
use fuzzy_regex::prefilter::{extract_prefilter, first_utf8_byte, make_multi_byte_prefilter, next_candidate, DfaPrefilter};

fn lit_class(c: char) -> CharClass {
    CharClass { chars: vec![c], ranges: vec![], named: vec![], negated: false }
}

/// `text` as a chain of one-character states.
fn literal_nfa(text: &str) -> Nfa {
    let mut states = vec![State::Accept];
    let mut next = 0;
    for c in text.chars().rev() {
        states.push(State::Char { class: lit_class(c), next });
        next = states.len() - 1;
    }
    Nfa { states, start: next }
}

#[test]
fn prefilter_multi_byte_shapes() {
    assert!(matches!(make_multi_byte_prefilter(&[], false), DfaPrefilter::Disabled));
    assert!(matches!(make_multi_byte_prefilter(b"a", false), DfaPrefilter::SingleByte(b'a')));
    assert!(matches!(make_multi_byte_prefilter(b"a", true), DfaPrefilter::TwoBytes(b'a', b'A')));
    assert!(matches!(make_multi_byte_prefilter(b"xy", false), DfaPrefilter::TwoBytes(b'x', b'y')));
    assert!(matches!(make_multi_byte_prefilter(b"xyz", false), DfaPrefilter::ThreeBytes(b'x', b'y', b'z')));
    match make_multi_byte_prefilter(&[4, 2, 3, 1], false) {
        DfaPrefilter::CharClassRanges(r) => assert_eq!(r, vec![(1, 4)]),
        _ => panic!("expected ranges"),
    }
    match make_multi_byte_prefilter(&[1, 3, 5, 7], false) {
        DfaPrefilter::ManyBytes(v) => assert_eq!(v, vec![1, 3, 5, 7]),
        _ => panic!("expected many bytes"),
    }
    match make_multi_byte_prefilter(b"ab", true) {
        DfaPrefilter::CharClassRanges(r) => assert_eq!(r, vec![(b'A', b'B'), (b'a', b'b')]),
        _ => panic!("expected ranges"),
    }
}

#[test]
fn prefilter_next_candidate() {
    let single = DfaPrefilter::SingleByte(b'x');
    assert_eq!(next_candidate(&single, b"abxcx", 0), Some(2));
    assert_eq!(next_candidate(&single, b"abxcx", 3), Some(4));
    assert_eq!(next_candidate(&single, b"abxcx", 5), None);
    let lit = DfaPrefilter::Literal(b"cd".to_vec());
    assert_eq!(next_candidate(&lit, b"abcdcd", 3), Some(4));
    assert_eq!(next_candidate(&lit, b"abcdc", 3), None);
    let ranges = DfaPrefilter::CharClassRanges(vec![(b'0', b'9')]);
    assert_eq!(next_candidate(&ranges, b"ab12", 0), Some(2));
    let many = DfaPrefilter::ManyBytes(vec![b'q', b'r', b's', b't']);
    assert_eq!(next_candidate(&many, b"abcs", 1), Some(3));
    let three = DfaPrefilter::ThreeBytes(b'1', b'2', b'3');
    assert_eq!(next_candidate(&three, b"xx3", 0), Some(2));
    let two = DfaPrefilter::TwoBytes(b'1', b'2');
    assert_eq!(next_candidate(&two, b"xx3", 0), None);
}

#[test]
fn prefilter_from_nfa() {
    let none: Vec<String> = Vec::new();
    assert!(matches!(extract_prefilter(&literal_nfa("hello"), &none, false), DfaPrefilter::SingleByte(b'h')));
    assert!(matches!(extract_prefilter(&literal_nfa("hello"), &none, true), DfaPrefilter::TwoBytes(b'h', b'H')));
    assert!(matches!(extract_prefilter(&literal_nfa("1x"), &none, true), DfaPrefilter::SingleByte(b'1')));

    let digits = Nfa {
        states: vec![
            State::Accept,
            State::Char { class: CharClass { chars: vec![], ranges: vec![('0', '9')], named: vec![], negated: false }, next: 0 },
        ],
        start: 1,
    };
    match extract_prefilter(&digits, &none, false) {
        DfaPrefilter::CharClassRanges(r) => assert_eq!(r, vec![(b'0', b'9')]),
        _ => panic!("expected digit ranges"),
    }

    let word = Nfa {
        states: vec![
            State::Accept,
            State::Char { class: CharClass { chars: vec![], ranges: vec![], named: vec![NamedClass::Word], negated: false }, next: 0 },
        ],
        start: 1,
    };
    assert!(matches!(extract_prefilter(&word, &none, false), DfaPrefilter::Disabled));

    let alt = Nfa {
        states: vec![
            State::Accept,
            State::Char { class: lit_class('c'), next: 0 },
            State::Char { class: lit_class('d'), next: 0 },
            State::Split { branches: vec![1, 2] },
        ],
        start: 3,
    };
    assert!(matches!(extract_prefilter(&alt, &none, false), DfaPrefilter::TwoBytes(b'c', b'd')));

    let texts = vec!["hello world".to_string()];
    let lit = Nfa {
        states: vec![State::Accept, State::FuzzyLiteral { pattern_index: 0, limits: None, next: 0 }],
        start: 1,
    };
    match extract_prefilter(&lit, &texts, false) {
        DfaPrefilter::Literal(l) => assert_eq!(l, b"hello wo".to_vec()),
        _ => panic!("expected a literal prefix"),
    }
    let _unused = FuzzyLimits { edits: None, insertions: None, deletions: None, substitutions: None, swaps: None };
}

#[test]
fn prefilter_first_utf8_byte() {
    assert_eq!(first_utf8_byte('a'), b'a');
    assert_eq!(first_utf8_byte('é'), 0xC3);
    assert_eq!(first_utf8_byte('中'), 0xE4);
    assert_eq!(first_utf8_byte('😀'), 0xF0);
}

#[test]
fn prefilter_bytes_to_ranges_runs() {
    assert_eq!(Dfa::bytes_to_ranges(b"abcxyz"), vec![(b'a', b'c'), (b'x', b'z')]);
    assert_eq!(Dfa::bytes_to_ranges(&[7, 9]), vec![(7, 7), (9, 9)]);
}
