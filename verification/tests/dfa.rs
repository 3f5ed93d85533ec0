// Tests of the lazy DFA, built from patterns by the small regex front end below.
#![allow(dead_code)]

use fuzzy_regex::dfa::Dfa;
use fuzzy_regex::nfa::{Anchor, CharClass, FuzzyLimits, NamedClass, Nfa, State};

enum Node {
    Empty,
    Lit(char),
    Class(Vec<char>, Vec<(char, char)>, Vec<NamedClass>, bool),
    Start,
    End,
    Concat(Vec<Node>),
    Alt(Vec<Node>),
    Repeat(Box<Node>, usize, Option<usize>),
    Group(Box<Node>),
    Fuzzy(String, u8),
}

struct Parser {
    chars: Vec<char>,
    pos: usize,
}

impl Parser {
    fn peek(&self) -> Option<char> {
        self.chars.get(self.pos).copied()
    }

    fn bump(&mut self) -> char {
        let c = self.chars[self.pos];
        self.pos += 1;
        c
    }

    fn alt(&mut self) -> Node {
        let mut branches = vec![self.concat()];
        while self.peek() == Some('|') {
            self.bump();
            branches.push(self.concat());
        }
        if branches.len() == 1 {
            branches.pop().unwrap()
        } else {
            Node::Alt(branches)
        }
    }

    fn concat(&mut self) -> Node {
        let mut items = Vec::new();
        while let Some(c) = self.peek() {
            if c == '|' || c == ')' {
                break;
            }
            let atom = self.atom();
            let atom = self.quantified(atom);
            items.push(atom);
        }
        match items.len() {
            0 => Node::Empty,
            1 => items.pop().unwrap(),
            _ => Node::Concat(items),
        }
    }

    fn number(&mut self) -> usize {
        let mut n = 0usize;
        while let Some(c) = self.peek() {
            if let Some(d) = c.to_digit(10) {
                n = n * 10 + d as usize;
                self.bump();
            } else {
                break;
            }
        }
        n
    }

    fn quantified(&mut self, atom: Node) -> Node {
        match self.peek() {
            Some('*') => {
                self.bump();
                Node::Repeat(Box::new(atom), 0, None)
            }
            Some('+') => {
                self.bump();
                Node::Repeat(Box::new(atom), 1, None)
            }
            Some('?') => {
                self.bump();
                Node::Repeat(Box::new(atom), 0, Some(1))
            }
            Some('~') => {
                self.bump();
                let k = self.number() as u8;
                Node::Fuzzy(literal_text(&atom), k)
            }
            Some('{') => {
                self.bump();
                if self.peek() == Some('e') {
                    self.bump();
                    assert_eq!(self.bump(), '<');
                    assert_eq!(self.bump(), '=');
                    let k = self.number() as u8;
                    assert_eq!(self.bump(), '}');
                    return Node::Fuzzy(literal_text(&atom), k);
                }
                let lo = self.number();
                let hi = if self.peek() == Some(',') {
                    self.bump();
                    if self.peek() == Some('}') { None } else { Some(self.number()) }
                } else {
                    Some(lo)
                };
                assert_eq!(self.bump(), '}');
                Node::Repeat(Box::new(atom), lo, hi)
            }
            _ => atom,
        }
    }

    fn escape(&mut self) -> Node {
        let c = self.bump();
        match c {
            'd' => Node::Class(vec![], vec![], vec![NamedClass::Digit], false),
            'D' => Node::Class(vec![], vec![], vec![NamedClass::NotDigit], false),
            'w' => Node::Class(vec![], vec![], vec![NamedClass::Word], false),
            'W' => Node::Class(vec![], vec![], vec![NamedClass::NotWord], false),
            's' => Node::Class(vec![], vec![], vec![NamedClass::Whitespace], false),
            'S' => Node::Class(vec![], vec![], vec![NamedClass::NotWhitespace], false),
            'n' => Node::Lit('\n'),
            't' => Node::Lit('\t'),
            other => Node::Lit(other),
        }
    }

    fn class(&mut self) -> Node {
        let mut negated = false;
        if self.peek() == Some('^') {
            self.bump();
            negated = true;
        }
        let mut chars = Vec::new();
        let mut ranges = Vec::new();
        let mut named = Vec::new();
        while self.peek() != Some(']') {
            let c = self.bump();
            let c = if c == '\\' {
                match self.escape() {
                    Node::Lit(l) => l,
                    Node::Class(_, _, n, _) => {
                        named.extend(n);
                        continue;
                    }
                    _ => unreachable!(),
                }
            } else {
                c
            };
            if self.peek() == Some('-') && self.chars.get(self.pos + 1) != Some(&']') {
                self.bump();
                let hi = self.bump();
                ranges.push((c, hi));
            } else {
                chars.push(c);
            }
        }
        self.bump();
        Node::Class(chars, ranges, named, negated)
    }

    fn atom(&mut self) -> Node {
        let c = self.bump();
        match c {
            '^' => Node::Start,
            '$' => Node::End,
            '.' => Node::Class(vec!['\n'], vec![], vec![], true),
            '\\' => self.escape(),
            '[' => self.class(),
            '(' => {
                if self.peek() == Some('?') {
                    self.bump();
                    assert_eq!(self.bump(), ':');
                }
                let inner = self.alt();
                assert_eq!(self.bump(), ')');
                Node::Group(Box::new(inner))
            }
            other => Node::Lit(other),
        }
    }
}

fn literal_text(node: &Node) -> String {
    match node {
        Node::Lit(c) => c.to_string(),
        Node::Concat(items) => items.iter().map(literal_text).collect(),
        Node::Group(inner) => literal_text(inner),
        _ => panic!("fuzzy quantifier on a non-literal"),
    }
}

/// A sequence of plain characters directly followed by a fuzzy marker binds
/// the whole run, as in `hello~1`.
fn bind_fuzzy_runs(node: Node) -> Node {
    match node {
        Node::Concat(items) => {
            let mut out: Vec<Node> = Vec::new();
            for item in items {
                match item {
                    Node::Fuzzy(text, k) => {
                        let mut run = text;
                        while let Some(Node::Lit(_)) = out.last() {
                            if let Some(Node::Lit(c)) = out.pop() {
                                run.insert(0, c);
                            }
                        }
                        out.push(Node::Fuzzy(run, k));
                    }
                    other => out.push(bind_fuzzy_runs(other)),
                }
            }
            if out.len() == 1 { out.pop().unwrap() } else { Node::Concat(out) }
        }
        Node::Alt(branches) => Node::Alt(branches.into_iter().map(bind_fuzzy_runs).collect()),
        Node::Group(inner) => Node::Group(Box::new(bind_fuzzy_runs(*inner))),
        Node::Repeat(inner, lo, hi) => Node::Repeat(Box::new(bind_fuzzy_runs(*inner)), lo, hi),
        other => other,
    }
}

struct Builder {
    states: Vec<State>,
    literals: Vec<String>,
}

impl Builder {
    fn push(&mut self, s: State) -> usize {
        self.states.push(s);
        self.states.len() - 1
    }

    fn class_state(&mut self, class: CharClass, next: usize) -> usize {
        self.push(State::Char { class, next })
    }

    fn compile(&mut self, node: &Node, next: usize) -> usize {
        match node {
            Node::Empty => next,
            Node::Lit(c) => self.class_state(
                CharClass { chars: vec![*c], ranges: vec![], named: vec![], negated: false },
                next,
            ),
            Node::Class(chars, ranges, named, negated) => self.class_state(
                CharClass { chars: chars.clone(), ranges: ranges.clone(), named: named.clone(), negated: *negated },
                next,
            ),
            Node::Start => self.push(State::Anchor { kind: Anchor::Start, next }),
            Node::End => self.push(State::Anchor { kind: Anchor::End, next }),
            Node::Concat(items) => {
                let mut cur = next;
                for item in items.iter().rev() {
                    cur = self.compile(item, cur);
                }
                cur
            }
            Node::Alt(branches) => {
                let starts: Vec<usize> = branches.iter().map(|b| self.compile(b, next)).collect();
                self.push(State::Split { branches: starts })
            }
            Node::Group(inner) => self.compile(inner, next),
            Node::Repeat(inner, lo, hi) => {
                let mut cur = match hi {
                    None => {
                        let split = self.push(State::Split { branches: vec![] });
                        let body = self.compile(inner, split);
                        self.states[split] = State::Split { branches: vec![body, next] };
                        split
                    }
                    Some(h) => {
                        let mut cur = next;
                        for _ in *lo..*h {
                            let body = self.compile(inner, cur);
                            cur = self.push(State::Split { branches: vec![body, next] });
                        }
                        cur
                    }
                };
                for _ in 0..*lo {
                    cur = self.compile(inner, cur);
                }
                cur
            }
            Node::Fuzzy(text, k) => {
                let index = self.literals.len();
                self.literals.push(text.clone());
                let limits = FuzzyLimits {
                    edits: Some(*k),
                    insertions: None,
                    deletions: None,
                    substitutions: None,
                    swaps: None,
                };
                self.push(State::FuzzyLiteral { pattern_index: index, limits: Some(limits), next })
            }
        }
    }
}

/// The NFA of `pattern` and the texts of its fuzzy literals.
pub fn build_nfa(pattern: &str) -> (Nfa, Vec<String>) {
    let mut parser = Parser { chars: pattern.chars().collect(), pos: 0 };
    let ast = bind_fuzzy_runs(parser.alt());
    assert_eq!(parser.pos, parser.chars.len(), "unparsed input in {pattern:?}");
    let mut builder = Builder { states: Vec::new(), literals: Vec::new() };
    let accept = builder.push(State::Accept);
    let start = builder.compile(&ast, accept);
    (Nfa { states: builder.states, start }, builder.literals)
}

pub fn make_dfa(pattern: &str) -> Option<Dfa> {
    make_dfa_ci(pattern, false)
}

pub fn make_dfa_ci(pattern: &str, case_insensitive: bool) -> Option<Dfa> {
    make_dfa_full(pattern, case_insensitive, false)
}

pub fn make_dfa_full(pattern: &str, case_insensitive: bool, multi_line: bool) -> Option<Dfa> {
    let (nfa, literals) = build_nfa(pattern);
    let texts = if literals.is_empty() { None } else { Some(&literals) };
    Dfa::from_nfa(nfa, texts, case_insensitive, multi_line)
}

#[test]
fn test_simple_literal() {
    let mut dfa = make_dfa("hello").unwrap();
    let m = dfa.find("hello world").unwrap();
    assert_eq!(m.start, 0);
    assert_eq!(m.end, 5);

    let m = dfa.find("say hello").unwrap();
    assert_eq!(m.start, 4);
    assert_eq!(m.end, 9);
}

#[test]
fn test_char_class() {
    let mut dfa = make_dfa("[a-z]+").unwrap();
    let m = dfa.find("123abc456").unwrap();
    assert_eq!(m.start, 3);
    assert_eq!(m.end, 6);
}

#[test]
fn test_start_anchor() {
    let mut dfa = make_dfa("^hello").unwrap();
    assert!(dfa.find("hello world").is_some());
    assert!(dfa.find("say hello").is_none());
}

#[test]
fn test_end_anchor() {
    let mut dfa = make_dfa("world$").unwrap();
    let m = dfa.find("hello world").unwrap();
    assert_eq!(m.start, 6);
    assert_eq!(m.end, 11);

    assert!(dfa.find("world hello").is_none());
}

#[test]
fn test_alternation() {
    let mut dfa = make_dfa("cat|dog").unwrap();
    assert!(dfa.find("I have a cat").is_some());
    assert!(dfa.find("I have a dog").is_some());
    assert!(dfa.find("I have a bird").is_none());
}

#[test]
fn test_quantifiers() {
    let mut dfa = make_dfa("a+").unwrap();
    let m = dfa.find("baaab").unwrap();
    assert_eq!(m.start, 1);
    assert_eq!(m.end, 4);

    let mut dfa = make_dfa("a*").unwrap();
    let m = dfa.find("baaab").unwrap();
    assert_eq!(m.start, 0); // Empty match at start
    assert_eq!(m.end, 0);

    let mut dfa = make_dfa("a?").unwrap();
    let m = dfa.find("baaab").unwrap();
    assert_eq!(m.start, 0); // Empty match at start
}

#[test]
fn test_find_all() {
    let mut dfa = make_dfa("[a-z]+").unwrap();
    let matches = dfa.find_all("abc 123 def 456 ghi");
    assert_eq!(matches.len(), 3);
    assert_eq!(matches[0].start, 0);
    assert_eq!(matches[0].end, 3);
    assert_eq!(matches[1].start, 8);
    assert_eq!(matches[1].end, 11);
}

#[test]
fn test_fuzzy_not_compatible() {
    // Fuzzy patterns should return None
    assert!(make_dfa("(?:hello){e<=1}").is_none());
    assert!(make_dfa("hello~1").is_none());
}

// Case-insensitive tests
#[test]
fn test_case_insensitive_literal() {
    let mut dfa = make_dfa_ci("hello", true).unwrap();

    // Should match all case variants
    assert!(dfa.find("hello").is_some());
    assert!(dfa.find("HELLO").is_some());
    assert!(dfa.find("HeLLo").is_some());
    assert!(dfa.find("hElLo").is_some());

    // Should find in mixed text
    let m = dfa.find("say HELLO world").unwrap();
    assert_eq!(m.start, 4);
    assert_eq!(m.end, 9);
}

#[test]
fn test_case_insensitive_char_class() {
    let mut dfa = make_dfa_ci("[a-z]+", true).unwrap();

    // Should match uppercase too
    let m = dfa.find("123ABC456").unwrap();
    assert_eq!(m.start, 3);
    assert_eq!(m.end, 6);

    // Mixed case
    let m = dfa.find("123AbC456").unwrap();
    assert_eq!(m.start, 3);
    assert_eq!(m.end, 6);
}

#[test]
fn test_case_insensitive_find_all() {
    let mut dfa = make_dfa_ci("hello", true).unwrap();
    let matches = dfa.find_all("hello HELLO HeLLo");
    assert_eq!(matches.len(), 3);
}

#[test]
fn test_case_sensitive_does_not_match_wrong_case() {
    let mut dfa = make_dfa_ci("hello", false).unwrap();

    assert!(dfa.find("hello").is_some());
    assert!(dfa.find("HELLO").is_none());
    assert!(dfa.find("HeLLo").is_none());
}

// Minimization tests
#[test]
fn test_minimize_simple() {
    let mut dfa = make_dfa("hello").unwrap();
    let before = dfa.state_count();
    let removed = dfa.minimize();
    let after = dfa.state_count();

    assert_eq!(removed, before - after);

    // Should still match correctly after minimization
    assert!(dfa.find("hello").is_some());
    assert!(dfa.find("world").is_none());
    let m = dfa.find("say hello").unwrap();
    assert_eq!(m.start, 4);
    assert_eq!(m.end, 9);
}

#[test]
fn test_minimize_alternation() {
    // Alternation often creates mergeable states
    let mut dfa = make_dfa("cat|car|cap").unwrap();
    // Complete the DFA first to see all states
    dfa.complete();
    let before = dfa.state_count();
    let removed = dfa.minimize();
    let after = dfa.state_count();

    // States sharing "ca" prefix should be merged
    println!("cat|car|cap: Before={before}, After={after}, Removed={removed}");

    // Should still match correctly
    assert!(dfa.find("cat").is_some());
    assert!(dfa.find("car").is_some());
    assert!(dfa.find("cap").is_some());
    assert!(dfa.find("cab").is_none());
}

#[test]
fn test_minimize_char_class() {
    let mut dfa = make_dfa("[abc]+").unwrap();
    // Complete the DFA first to see all states
    dfa.complete();
    let before = dfa.state_count();
    let removed = dfa.minimize();
    let after = dfa.state_count();

    println!("[abc]+ states: Before={before}, After={after}, Removed={removed}");

    // Should still work correctly
    let m = dfa.find("xyzabc123").unwrap();
    assert_eq!(m.start, 3);
    assert_eq!(m.end, 6);
}

#[test]
fn test_minimize_preserves_anchors() {
    let mut dfa = make_dfa("^hello$").unwrap();
    dfa.minimize();

    // Anchors should still work
    assert!(dfa.find("hello").is_some());
    assert!(dfa.find("hello world").is_none()); // $ anchor
    assert!(dfa.find("say hello").is_none()); // ^ anchor
}

#[test]
fn test_minimize_case_insensitive() {
    let mut dfa = make_dfa_ci("hello", true).unwrap();
    dfa.complete();
    let before = dfa.state_count();
    let removed = dfa.minimize();
    let after = dfa.state_count();

    println!("CI 'hello' states: Before={before}, After={after}, Removed={removed}");

    // Should still match case-insensitively
    assert!(dfa.find("hello").is_some());
    assert!(dfa.find("HELLO").is_some());
    assert!(dfa.find("HeLLo").is_some());
}

#[test]
fn test_state_count() {
    let dfa = make_dfa("a").unwrap();
    assert!(dfa.state_count() >= 1);

    let dfa = make_dfa("abc").unwrap();
    assert!(dfa.state_count() >= 1);
}

#[test]
fn test_minimize_with_bounded_quantifier() {
    // Pattern with bounded quantifier
    let mut dfa = make_dfa("^a{1,3}b$").unwrap();
    dfa.complete();
    let before = dfa.state_count();
    let removed = dfa.minimize();
    let after = dfa.state_count();

    println!("^a{{1,3}}b$: Before={before}, After={after}, Removed={removed}");

    // Should still match correctly with anchors
    assert!(dfa.find("ab").is_some());
    assert!(dfa.find("aab").is_some());
    assert!(dfa.find("aaab").is_some());
    assert!(dfa.find("aaaab").is_none()); // 4 a's - doesn't match
    assert!(dfa.find("b").is_none()); // no a's - doesn't match
}

#[test]
fn test_minimize_complex_alternation() {
    // Many alternations might create some equivalent states
    let mut dfa = make_dfa("abc|abd|abe|abf").unwrap();
    dfa.complete();
    let before = dfa.state_count();
    let removed = dfa.minimize();
    let after = dfa.state_count();

    println!("abc|abd|abe|abf: Before={before}, After={after}, Removed={removed}");

    // Should still match
    assert!(dfa.find("abc").is_some());
    assert!(dfa.find("abd").is_some());
    assert!(dfa.find("abe").is_some());
    assert!(dfa.find("abf").is_some());
    assert!(dfa.find("abg").is_none());
}

// Multiline tests
#[test]
fn test_multiline_start_anchor() {
    // Without multiline: ^ only matches at position 0
    let mut dfa = make_dfa_full("^line", false, false).unwrap();
    assert!(dfa.find("line1\nline2").is_some());
    assert!(dfa.find("first\nline2").is_none()); // ^ doesn't match after \n

    // With multiline: ^ matches at start OR after \n
    let mut dfa_ml = make_dfa_full("^line", false, true).unwrap();
    assert!(dfa_ml.find("line1\nline2").is_some());
    let m = dfa_ml.find("first\nline2").unwrap();
    assert_eq!(m.start, 6); // matches "line" after newline
    assert_eq!(m.end, 10);
}

#[test]
fn test_multiline_end_anchor() {
    // Without multiline: $ only matches at end of string
    let mut dfa = make_dfa_full("end$", false, false).unwrap();
    assert!(dfa.find("the end").is_some());
    assert!(dfa.find("end\nnext").is_none()); // $ doesn't match before \n

    // With multiline: $ matches at end OR before \n
    let mut dfa_ml = make_dfa_full("end$", false, true).unwrap();
    assert!(dfa_ml.find("the end").is_some());
    let m = dfa_ml.find("end\nnext").unwrap();
    assert_eq!(m.start, 0);
    assert_eq!(m.end, 3);
}

#[test]
fn test_multiline_both_anchors() {
    // Pattern ^line$ should match whole lines in multiline mode
    let mut dfa_ml = make_dfa_full("^line$", false, true).unwrap();

    // Match first line
    let m = dfa_ml.find("line\nother").unwrap();
    assert_eq!(m.start, 0);
    assert_eq!(m.end, 4);

    // Match middle line
    let m = dfa_ml.find("first\nline\nlast").unwrap();
    assert_eq!(m.start, 6);
    assert_eq!(m.end, 10);

    // Match last line
    let m = dfa_ml.find("other\nline").unwrap();
    assert_eq!(m.start, 6);
    assert_eq!(m.end, 10);
}

#[test]
fn test_multiline_find_all() {
    let mut dfa_ml = make_dfa_full("^[a-z]+$", false, true).unwrap();
    let matches = dfa_ml.find_all("hello\n123\nworld");

    assert_eq!(matches.len(), 2);
    assert_eq!(matches[0].start, 0);
    assert_eq!(matches[0].end, 5);
    assert_eq!(matches[1].start, 10);
    assert_eq!(matches[1].end, 15);
}

#[test]
fn test_bytes_to_ranges() {
    assert_eq!(Dfa::bytes_to_ranges(&[]), Vec::<(u8, u8)>::new());
    assert_eq!(Dfa::bytes_to_ranges(&[5]), vec![(5, 5)]);
    assert_eq!(Dfa::bytes_to_ranges(&[1, 2, 3]), vec![(1, 3)]);
    assert_eq!(Dfa::bytes_to_ranges(&[1, 3, 5]), vec![(1, 1), (3, 3), (5, 5)]);
    assert_eq!(Dfa::bytes_to_ranges(&[1, 2, 5, 6, 9]), vec![(1, 2), (5, 6), (9, 9)]);
    assert_eq!(Dfa::bytes_to_ranges(&[b'0', b'1', b'2', b'5', b'6', b'7']), vec![(b'0', b'2'), (b'5', b'7')]);
}

#[test]
fn test_char_class_ranges_prefilter() {
    // Test digit class - should use CharClassRanges
    let mut dfa = make_dfa(r"\d+").unwrap();
    let m = dfa.find("abc123def").unwrap();
    assert_eq!(m.start, 3);
    assert_eq!(m.end, 6);

    // Test rightmost match using find_rev
    let m = dfa.find_rev("abc123def456").unwrap();
    assert_eq!(m.start, 9);
    assert_eq!(m.end, 12);

    // Test word class
    let mut dfa_word = make_dfa(r"\w+").unwrap();
    let m = dfa_word.find("hello123").unwrap();
    assert_eq!(m.start, 0);
    assert_eq!(m.end, 8);
}

#[test]
fn test_find_rev_with_char_class_ranges() {
    // Test rightmost match for character class patterns
    let mut dfa = make_dfa(r"\d+").unwrap();
    let m = dfa.find_rev("abc123def456ghi").unwrap();
    assert_eq!(m.start, 9);
    assert_eq!(m.end, 12);

    // Test multiple digit groups
    let m = dfa.find_rev("a1b22c333d").unwrap();
    assert_eq!(m.start, 6);
    assert_eq!(m.end, 9);
}

#[test]
fn test_teddy_literal_search() {
    // Test with longer literal patterns that use Teddy search
    let mut dfa = make_dfa("example").unwrap();
    let m = dfa.find("this is an example text").unwrap();
    assert_eq!(m.start, 11);
    assert_eq!(m.end, 18);

    // Test rightmost match with Teddy
    let m = dfa.find_rev("an example of example").unwrap();
    assert_eq!(m.start, 14);
    assert_eq!(m.end, 21);

    // Test with even longer pattern: "the quick brown fox" = 19 chars
    let mut dfa2 = make_dfa("the quick brown fox").unwrap();
    // "hello the quick brown fox world" - "the" starts at 6, pattern ends at 25
    let m = dfa2.find("hello the quick brown fox world").unwrap();
    assert_eq!(m.start, 6);
    assert_eq!(m.end, 25);

    // "the quick brown fox and the quick brown fox"
    // First starts at 0, second starts at 24
    let m = dfa2.find_rev("the quick brown fox and the quick brown fox").unwrap();
    assert_eq!(m.start, 24);
    assert_eq!(m.end, 43);
}

// -- RE# Edge Case Tests --

#[test]
fn test_rev_search_at_every_position() {
    // Single byte search at every position
    for pos in 0..64 {
        let mut hay = vec![b'.'; 64];
        hay[pos] = b'Z';
        let mut dfa = make_dfa("Z").unwrap();
        let result = dfa.find(&String::from_utf8_lossy(&hay));
        assert!(result.is_some(), "pos={}", pos);
        assert_eq!(result.unwrap().start, pos, "pos={}", pos);
    }
}

#[test]
fn test_rev_search_two_bytes_sweep() {
    // Test reverse search with byte class [XY]
    for size in 1..=80 {
        let mut hay = vec![b'.'; size];
        hay[0] = b'X';
        let mut dfa = make_dfa("[XY]").unwrap();
        let result = dfa.find(&String::from_utf8_lossy(&hay));
        assert!(result.is_some(), "size={}", size);

        hay[0] = b'.';
        hay[size - 1] = b'Y';
        let result = dfa.find(&String::from_utf8_lossy(&hay));
        assert!(result.is_some(), "size={}", size);
    }
}

#[test]
fn test_rev_search_no_match_long() {
    let hay = vec![b'.'; 1024];
    let mut dfa = make_dfa("Z").unwrap();
    let result = dfa.find(&String::from_utf8_lossy(&hay));
    assert!(result.is_none());
}

#[test]
fn test_rev_search_all_match() {
    let hay = vec![b'Z'; 100];
    let mut dfa = make_dfa("Z").unwrap();
    let matches = dfa.find_all(&String::from_utf8_lossy(&hay));
    assert_eq!(matches.len(), 100);
    assert_eq!(matches[0].start, 0);
    assert_eq!(matches[0].end, 1);
    assert_eq!(matches[99].start, 99);
    assert_eq!(matches[99].end, 100);
}

#[test]
fn test_fwd_literal_at_every_offset() {
    // Literal at every possible offset
    for pos in 0..98 {
        let mut hay = vec![b'.'; 100];
        hay[pos] = b'a';
        hay[pos + 1] = b'b';
        hay[pos + 2] = b'c';
        let mut dfa = make_dfa("abc").unwrap();
        let result = dfa.find(&String::from_utf8_lossy(&hay));
        assert!(result.is_some(), "pos={}", pos);
        assert_eq!(result.unwrap().start, pos, "pos={}", pos);
    }
}

#[test]
fn test_fwd_literal_adjacent_non_overlapping() {
    let mut dfa = make_dfa("abab").unwrap();
    let matches = dfa.find_all("abababababab");
    assert_eq!(matches.len(), 3);
    assert_eq!(matches[0].start, 0);
    assert_eq!(matches[0].end, 4);
    assert_eq!(matches[1].start, 4);
    assert_eq!(matches[1].end, 8);
    assert_eq!(matches[2].start, 8);
    assert_eq!(matches[2].end, 12);
}

#[test]
fn test_fwd_literal_long_needle() {
    let needle16 = b"ABCDEFGHIJKLMNOP";
    let mut hay = vec![b'.'; 200];
    hay[100..116].copy_from_slice(needle16);
    let mut dfa = make_dfa("ABCDEFGHIJKLMNOP").unwrap();
    let matches = dfa.find_all(&String::from_utf8_lossy(&hay));
    assert_eq!(matches.len(), 1);
    assert_eq!(matches[0].start, 100);
    assert_eq!(matches[0].end, 116);
}

#[test]
fn test_fwd_literal_haystack_equals_needle() {
    let mut dfa = make_dfa("exact").unwrap();
    let m = dfa.find("exact").unwrap();
    assert_eq!(m.start, 0);
    assert_eq!(m.end, 5);
}

#[test]
fn test_fwd_literal_single_byte() {
    let mut dfa = make_dfa("a").unwrap();
    assert!(dfa.find("a").is_some());
    assert!(dfa.find("b").is_none());
}

#[test]
fn test_fwd_literal_near_end_boundary() {
    for size in [15, 16, 17, 31, 32, 33, 47, 48, 49, 63, 64, 65] {
        let mut hay = vec![b'.'; size];
        if size >= 3 {
            hay[size - 3] = b'x';
            hay[size - 2] = b'y';
            hay[size - 1] = b'z';
            let mut dfa = make_dfa("xyz").unwrap();
            let result = dfa.find(&String::from_utf8_lossy(&hay));
            assert!(result.is_some(), "size={}", size);
            assert_eq!(result.unwrap().start, size - 3, "size={}", size);
        }
    }
}

#[test]
fn test_digit_class_boundary_sweep() {
    // Test digit class at various boundary sizes
    for size in [10, 15, 16, 17, 31, 32, 33, 48, 64, 100] {
        let mut hay = vec![b'.'; size];
        let mid = size / 2;
        hay[mid] = b'5';
        hay[mid + 1] = b'7';
        let mut dfa = make_dfa("[0-9]+").unwrap();
        let result = dfa.find(&String::from_utf8_lossy(&hay));
        assert!(result.is_some(), "size={}", size);
    }
}

#[test]
fn test_digit_class_dense_matches() {
    // Dense digit matches
    let hay: Vec<u8> = (0..100).map(|i| b'0' + (i % 10)).collect();
    let mut dfa = make_dfa("[0-9]+").unwrap();
    let matches = dfa.find_all(&String::from_utf8_lossy(&hay));
    assert!(!matches.is_empty());
}

#[test]
fn test_word_class_boundary() {
    let mut dfa = make_dfa(r"[A-Z][a-z]+").unwrap();
    let result = dfa.find("Hello World Foo Bar");
    assert!(result.is_some());
}

#[test]
fn test_alternation_three_way() {
    let mut dfa = make_dfa("cat|dog|fox").unwrap();
    let result = dfa.find("the cat sat on the dog and the fox ran");
    assert!(result.is_some());
}

#[test]
fn test_char_class_no_match_long() {
    let hay = vec![b'.'; 200];
    let mut dfa = make_dfa("[0-9]+").unwrap();
    assert!(dfa.find(&String::from_utf8_lossy(&hay)).is_none());
}

#[test]
fn test_char_class_at_position_zero() {
    let mut dfa = make_dfa("[0-9]+").unwrap();
    let m = dfa.find("123abc").unwrap();
    assert_eq!(m.start, 0);
    assert_eq!(m.end, 3);
}

#[test]
fn test_char_class_at_end() {
    let mut dfa = make_dfa("[0-9]+").unwrap();
    let m = dfa.find("abc123").unwrap();
    assert_eq!(m.start, 3);
    assert_eq!(m.end, 6);
}

#[test]
fn test_rev_char_class_at_end() {
    let mut dfa = make_dfa("[0-9]+").unwrap();
    let m = dfa.find_rev("abc123").unwrap();
    assert_eq!(m.start, 3);
    assert_eq!(m.end, 6);
}

#[test]
fn test_rev_literal_at_end() {
    let mut dfa = make_dfa("hello").unwrap();
    let m = dfa.find_rev("say hello world").unwrap();
    assert_eq!(m.start, 4);
    assert_eq!(m.end, 9);
}

#[test]
fn test_rev_literal_long_pattern() {
    let mut dfa = make_dfa("the quick brown fox").unwrap();
    let m = dfa.find_rev("the quick brown fox and the quick brown fox").unwrap();
    assert_eq!(m.start, 24);
    assert_eq!(m.end, 43);
}

#[test]
fn test_rev_literal_at_boundary_32() {
    // Test reverse search at 32-byte boundary
    for offset in [0, 31, 32, 33, 63, 64, 65] {
        let mut hay = vec![b'.'; 128];
        if offset + 5 <= 128 {
            hay[offset] = b'h';
            hay[offset + 1] = b'e';
            hay[offset + 2] = b'l';
            hay[offset + 3] = b'l';
            hay[offset + 4] = b'o';
            let mut dfa = make_dfa("hello").unwrap();
            let m = dfa.find_rev(&String::from_utf8_lossy(&hay));
            assert!(m.is_some(), "offset={}", offset);
        }
    }
}

#[test]
fn test_find_all_multiple_matches() {
    let mut dfa = make_dfa("the").unwrap();
    let text = "the quick brown fox jumps over the lazy dog and the cat";
    let matches = dfa.find_all(text);
    assert_eq!(matches.len(), 3);
    assert_eq!(matches[0].start, 0);
    assert_eq!(matches[1].start, 31);
    assert_eq!(matches[2].start, 48);
}

#[test]
fn test_empty_literal() {
    let mut dfa = make_dfa("").unwrap();
    // Empty pattern should match at position 0
    let m = dfa.find("hello");
    // Note: Empty patterns may not be supported in all regex engines
    assert!(m.is_none() || m.unwrap().start == 0);
}

#[test]
fn test_pattern_at_text_start() {
    let mut dfa = make_dfa("hello").unwrap();
    let m = dfa.find("hello world").unwrap();
    assert_eq!(m.start, 0);
    assert_eq!(m.end, 5);
}

#[test]
fn test_pattern_at_text_end() {
    let mut dfa = make_dfa("world").unwrap();
    let m = dfa.find("hello world").unwrap();
    assert_eq!(m.start, 6);
    assert_eq!(m.end, 11);
}

#[test]
fn test_pattern_not_found() {
    let mut dfa = make_dfa("xyz").unwrap();
    assert!(dfa.find("hello world").is_none());
}

#[test]
fn test_single_char_pattern() {
    let mut dfa = make_dfa("x").unwrap();
    let text = "abcxdef";
    let m = dfa.find(text).unwrap();
    assert_eq!(m.start, 3);
    assert_eq!(m.end, 4);
}

#[test]
fn test_repeating_pattern() {
    let mut dfa = make_dfa("aa").unwrap();
    let text = "aaaaaa";
    let matches = dfa.find_all(text);
    // Should find overlapping or non-overlapping matches
    assert!(!matches.is_empty());
}

#[test]
fn benchmark_literal_search() {
    let mut dfa = make_dfa("the quick brown fox").unwrap();
    let text = "the quick brown fox jumps over the lazy dog the quick brown fox";
    
    // Warm up
    for _ in 0..1000 {
        let _ = dfa.find(text);
        let _ = dfa.find_rev(text);
    }
    
    // Benchmark forward search
    let start = std::time::Instant::now();
    for _ in 0..100_000 {
        black_box(dfa.find(text));
    }
    let fwd_time = start.elapsed();
    
    // Benchmark reverse search
    let start = std::time::Instant::now();
    for _ in 0..100_000 {
        black_box(dfa.find_rev(text));
    }
    let rev_time = start.elapsed();
    
    println!("\n=== Literal Search Benchmark (19-byte pattern) ===");
    println!("Pattern: 'the quick brown fox' (uses Teddy for >= 4 bytes)");
    println!("Text: 'the quick brown fox jumps over the lazy dog...'");
    println!("Forward (100k): {:?} ({:.2} ns/op)", fwd_time, fwd_time.as_nanos() as f64 / 100_000.0);
    println!("Reverse (100k): {:?} ({:.2} ns/op)", rev_time, rev_time.as_nanos() as f64 / 100_000.0);
}

#[test]
fn benchmark_short_literal() {
    // Short patterns (3 bytes) use memchr, not Teddy
    let mut dfa = make_dfa("abc").unwrap();
    let text = "xyz abc def abc ghi abc";
    
    // Warm up
    for _ in 0..1000 {
        let _ = dfa.find(text);
        let _ = dfa.find_rev(text);
    }
    
    // Benchmark
    let iterations = 100_000;
    let start = std::time::Instant::now();
    for _ in 0..iterations {
        black_box(dfa.find(text));
    }
    let fwd_time = start.elapsed();
    
    let start = std::time::Instant::now();
    for _ in 0..iterations {
        black_box(dfa.find_rev(text));
    }
    let rev_time = start.elapsed();
    
    println!("\n=== Short Literal Benchmark (3-byte pattern) ===");
    println!("Pattern: 'abc' (uses memchr, not Teddy)");
    println!("Forward (100k): {:?} ({:.2} ns/op)", fwd_time, fwd_time.as_nanos() as f64 / 100_000.0);
    println!("Reverse (100k): {:?} ({:.2} ns/op)", rev_time, rev_time.as_nanos() as f64 / 100_000.0);
}

#[test]
fn benchmark_digit_class() {
    let mut dfa = make_dfa("[0-9]+").unwrap();
    let text = "Lorem ipsum dolor sit amet 12345 consectetur adipiscing elit 67890";
    
    // Warm up
    for _ in 0..1000 {
        let _ = dfa.find(text);
        let _ = dfa.find_rev(text);
    }
    
    // Benchmark forward search
    let start = std::time::Instant::now();
    for _ in 0..100_000 {
        black_box(dfa.find(text));
    }
    let fwd_time = start.elapsed();
    
    // Benchmark reverse search
    let start = std::time::Instant::now();
    for _ in 0..100_000 {
        black_box(dfa.find_rev(text));
    }
    let rev_time = start.elapsed();
    
    println!("\n=== Digit Class Benchmark [0-9]+ ===");
    println!("Pattern: '[0-9]+' (uses CharClassRanges + SIMD)");
    println!("Text: 'Lorem ipsum dolor... 12345 ... 67890'");
    println!("Forward (100k): {:?} ({:.2} ns/op)", fwd_time, fwd_time.as_nanos() as f64 / 100_000.0);
    println!("Reverse (100k): {:?} ({:.2} ns/op)", rev_time, rev_time.as_nanos() as f64 / 100_000.0);
}

#[test]
fn benchmark_large_text() {
    let large_text = "Lorem ipsum dolor sit amet ".repeat(1000);
    let mut dfa_literal = make_dfa("ipsum").unwrap();
    let mut dfa_digit = make_dfa("[0-9]+").unwrap();
    let mut dfa_long = make_dfa("the quick brown fox jumps over the lazy dog").unwrap();
    
    // Warm up
    for _ in 0..100 {
        let _ = dfa_literal.find(&large_text);
        let _ = dfa_literal.find_rev(&large_text);
    }
    
    // Benchmark literal (rare byte 'x')
    let start = std::time::Instant::now();
    for _ in 0..10_000 {
        black_box(dfa_literal.find(&large_text));
    }
    let lit_fwd = start.elapsed();
    
    let start = std::time::Instant::now();
    for _ in 0..10_000 {
        black_box(dfa_literal.find_rev(&large_text));
    }
    let lit_rev = start.elapsed();
    
    // Benchmark digit class (no digits in text = worst case)
    let start = std::time::Instant::now();
    for _ in 0..10_000 {
        black_box(dfa_digit.find(&large_text));
    }
    let digit_fwd = start.elapsed();
    
    let start = std::time::Instant::now();
    for _ in 0..10_000 {
        black_box(dfa_digit.find_rev(&large_text));
    }
    let digit_rev = start.elapsed();
    
    // Benchmark long pattern (Teddy target)
    let start = std::time::Instant::now();
    for _ in 0..10_000 {
        black_box(dfa_long.find(&large_text));
    }
    let long_fwd = start.elapsed();
    
    let start = std::time::Instant::now();
    for _ in 0..10_000 {
        black_box(dfa_long.find_rev(&large_text));
    }
    let long_rev = start.elapsed();
    
    println!("\n=== Large Text (50KB) Benchmark ===");
    println!("Text: 1000x 'Lorem ipsum dolor sit amet '");
    println!("");
    println!("Literal 'ipsum' (5 bytes):");
    println!("  Forward: {:?} ({:.2} ns/op)", lit_fwd, lit_fwd.as_nanos() as f64 / 10_000.0);
    println!("  Reverse: {:?} ({:.2} ns/op)", lit_rev, lit_rev.as_nanos() as f64 / 10_000.0);
    println!("");
    println!("Digit [0-9]+ (no match, worst case):");
    println!("  Forward: {:?} ({:.2} ns/op)", digit_fwd, digit_fwd.as_nanos() as f64 / 10_000.0);
    println!("  Reverse: {:?} ({:.2} ns/op)", digit_rev, digit_rev.as_nanos() as f64 / 10_000.0);
    println!("");
    println!("Long pattern (42 bytes, Teddy target):");
    println!("  Forward: {:?} ({:.2} ns/op)", long_fwd, long_fwd.as_nanos() as f64 / 10_000.0);
    println!("  Reverse: {:?} ({:.2} ns/op)", long_rev, long_rev.as_nanos() as f64 / 10_000.0);
}

#[test]
fn benchmark_rare_vs_common_byte() {
    let large_text = "the quick brown fox jumps over the lazy dog ".repeat(1000);
    
    // Pattern with common byte 'e'
    let mut dfa_common = make_dfa("the").unwrap();
    // Pattern with rare byte 'x'  
    let mut dfa_rare = make_dfa("fox").unwrap();
    
    // Warm up
    for _ in 0..100 {
        let _ = dfa_common.find(&large_text);
        let _ = dfa_rare.find(&large_text);
    }
    
    let iterations = 10_000;
    
    let start = std::time::Instant::now();
    for _ in 0..iterations {
        black_box(dfa_common.find(&large_text));
    }
    let common_time = start.elapsed();
    
    let start = std::time::Instant::now();
    for _ in 0..iterations {
        black_box(dfa_rare.find(&large_text));
    }
    let rare_time = start.elapsed();
    
    println!("\n=== Rare vs Common Byte Benchmark ===");
    println!("Text: 1000x 'the quick brown fox jumps over the lazy dog '");
    println!("");
    println!("Pattern 'the' (common 'e'): {:?} ({:.2} ns/op)", 
        common_time, common_time.as_nanos() as f64 / iterations as f64);
    println!("Pattern 'fox' (rare 'x'): {:?} ({:.2} ns/op)", 
        rare_time, rare_time.as_nanos() as f64 / iterations as f64);
    println!("");
    println!("Speedup from rare byte: {:.2}x", 
        common_time.as_nanos() as f64 / rare_time.as_nanos() as f64);
}

fn black_box<T>(x: T) -> T { x }

#[test]
fn first_end_is_the_end_of_the_shortest_match() {
    let mut dfa = make_dfa("a+").unwrap();
    assert_eq!(dfa.first_end("aaa"), Some(1));
    assert_eq!(dfa.first_end("baaa"), Some(2));
    assert_eq!(dfa.first_end("bbb"), None);
    let mut words = make_dfa("ab|abcd").unwrap();
    assert_eq!(words.first_end("xxabcd"), Some(4));
}

#[test]
fn prefilter_admits_every_first_byte_of_a_class() {
    let mut dfa = make_dfa("[ab]c|d").unwrap();
    let m = dfa.find("bc").unwrap();
    assert_eq!((m.start, m.end), (0, 2));
    let m = dfa.find("xxac").unwrap();
    assert_eq!((m.start, m.end), (2, 4));
    let m = dfa.find("xd").unwrap();
    assert_eq!((m.start, m.end), (1, 2));
}

#[test]
fn reverse_search_with_end_anchor_in_multi_line_mode() {
    let mut dfa_ml = make_dfa_full("end$", false, true).unwrap();
    let m = dfa_ml.find_rev("end\nnext").unwrap();
    assert_eq!((m.start, m.end), (0, 3));
    let mut dfa = make_dfa_full("end$", false, false).unwrap();
    assert!(dfa.find_rev("end\nnext").is_none());
    let m = dfa.find_rev("the end").unwrap();
    assert_eq!((m.start, m.end), (4, 7));
}

#[test]
fn case_folding_beyond_ascii_does_not_depend_on_history() {
    let mut dfa = make_dfa_ci("é", true).unwrap();
    let m = dfa.find("xÉ").unwrap();
    assert_eq!((m.start, m.end), (1, 3));
    assert!(dfa.find("é").is_some());
    let mut fresh = make_dfa_ci("é", true).unwrap();
    assert!(fresh.find("é").is_some());
    let m = fresh.find("xÉ").unwrap();
    assert_eq!((m.start, m.end), (1, 3));
    let mut exact = make_dfa_ci("é", false).unwrap();
    assert!(exact.find("É").is_none());
}

#[test]
fn dfa_fresh_has_no_skip_candidates() {
    let dfa = make_dfa("abc").unwrap();
    assert_eq!(dfa.get_skip_candidates(), Some(vec![]));
}

#[test]
fn dfa_second_complete_changes_nothing() {
    let mut dfa = make_dfa("a[bc]+d").unwrap();
    dfa.complete();
    let states = dfa.state_count();
    let skips = dfa.get_skip_candidates();
    dfa.complete();
    assert_eq!(dfa.state_count(), states);
    assert_eq!(dfa.get_skip_candidates(), skips);
}

#[test]
fn dfa_find_n_is_prefix_of_find_all() {
    let mut dfa = make_dfa("ab+").unwrap();
    let text = "ab abb x abbb ab";
    let all = dfa.find_all(text);
    for n in 0..6 {
        let some = dfa.find_n(text, n);
        assert_eq!(some.len(), n.min(all.len()));
        assert_eq!(&all[..some.len()], &some[..]);
    }
}

#[test]
fn dfa_longest_end_is_find_at_start() {
    let mut dfa = make_dfa("a+b?").unwrap();
    for text in ["aaab", "aa", "b", "aab aab"] {
        let end = dfa.longest_end(text);
        let at = dfa.find_at(text, 0).map(|m| m.end);
        assert_eq!(end, at);
    }
}

#[test]
fn dfa_find_is_first_find_at() {
    let mut dfa = make_dfa("b+c").unwrap();
    let text = "abbc bc";
    let first = dfa.find(text);
    let mut expected = None;
    for k in 0..=text.len() {
        if let Some(m) = dfa.find_at(text, k) {
            expected = Some(m);
            break;
        }
    }
    assert_eq!(first, expected);
}

#[test]
fn dfa_find_all_matches_are_find_at() {
    let mut dfa = make_dfa("a[bc]*").unwrap();
    let text = "xabc acb a";
    let all = dfa.find_all(text);
    assert!(!all.is_empty());
    for w in all.windows(2) {
        assert!(w[0].start < w[1].start);
    }
    for m in &all {
        assert_eq!(dfa.find_at(text, m.start), Some(*m));
    }
}
