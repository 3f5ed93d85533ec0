//! The NFA that the lazy DFA is built from: states, character classes,
//! and the epsilon-reachability relation between states.
use vstd::prelude::*;

verus! {

/// Kinds of zero-width assertions.
#[derive(Clone, Copy, PartialEq, Eq, Debug)]
pub enum Anchor {
    Start,
    End,
    WordBoundary,
    NotWordBoundary,
}

/// Predefined character classes (`\d`, `\w`, `\s` and their negations).
#[derive(Clone, Copy, PartialEq, Eq, Debug)]
pub enum NamedClass {
    Digit,
    NotDigit,
    Word,
    NotWord,
    Whitespace,
    NotWhitespace,
}

/// A set of characters: single characters, inclusive ranges and named
/// classes, optionally negated.
#[derive(Debug)]
pub struct CharClass {
    pub chars: Vec<char>,
    pub ranges: Vec<(char, char)>,
    pub named: Vec<NamedClass>,
    pub negated: bool,
}

/// Per-operation edit limits attached to a fuzzy literal.
#[derive(Clone, Copy, Debug)]
pub struct FuzzyLimits {
    pub edits: Option<u8>,
    pub insertions: Option<u8>,
    pub deletions: Option<u8>,
    pub substitutions: Option<u8>,
    pub swaps: Option<u8>,
}

/// An NFA state.  Targets are indices into `Nfa::states`.
#[derive(Debug)]
pub enum State {
    Accept,
    Epsilon { targets: Vec<usize> },
    Split { branches: Vec<usize> },
    Char { class: CharClass, next: usize },
    CaptureStart { group: usize, next: usize },
    CaptureEnd { group: usize, next: usize },
    Anchor { kind: Anchor, next: usize },
    ResetMatchStart { next: usize },
    /// A literal (by index into the literal table) matched as a unit.
    FuzzyLiteral { pattern_index: usize, limits: Option<FuzzyLimits>, next: usize },
    FuzzyChar,
    Lookahead,
    Lookbehind,
    Backreference,
    AtomicGroup,
    RecursivePattern,
    RecursiveGroup,
    RecursiveNamedGroup,
    Handler,
}

/// A Thompson-style NFA.
#[derive(Debug)]
pub struct Nfa {
    pub states: Vec<State>,
    pub start: usize,
}

pub open spec fn is_ascii_char(c: char) -> bool {
    (c as u32) < 128
}

pub open spec fn is_ascii_digit(c: char) -> bool {
    '0' <= c <= '9'
}

pub open spec fn is_ascii_alpha(c: char) -> bool {
    ('a' <= c <= 'z') || ('A' <= c <= 'Z')
}

pub open spec fn is_word_char(c: char) -> bool {
    is_ascii_digit(c) || is_ascii_alpha(c) || c == '_'
}

pub open spec fn is_space_char(c: char) -> bool {
    c == ' ' || c == '\t' || c == '\n' || c == '\r' || c == '\x0B' || c == '\x0C'
}

/// ASCII lowercase mapping (identity outside `A`..=`Z`).
pub open spec fn ascii_lower(c: char) -> char {
    if 'A' <= c <= 'Z' {
        ((c as u32) + 32) as char
    } else {
        c
    }
}

/// ASCII uppercase mapping (identity outside `a`..=`z`).
pub open spec fn ascii_upper(c: char) -> char {
    if 'a' <= c <= 'z' {
        ((c as u32) - 32) as char
    } else {
        c
    }
}

pub fn to_ascii_lower(c: char) -> (r: char)
    ensures
        r == ascii_lower(c),
{
    if 'A' <= c && c <= 'Z' {
        ((c as u32) + 32) as u8 as char
    } else {
        c
    }
}

pub fn to_ascii_upper(c: char) -> (r: char)
    ensures
        r == ascii_upper(c),
{
    if 'a' <= c && c <= 'z' {
        ((c as u32) - 32) as u8 as char
    } else {
        c
    }
}

pub open spec fn named_matches(n: NamedClass, c: char) -> bool {
    match n {
        NamedClass::Digit => is_ascii_digit(c),
        NamedClass::NotDigit => !is_ascii_digit(c),
        NamedClass::Word => is_word_char(c),
        NamedClass::NotWord => !is_word_char(c),
        NamedClass::Whitespace => is_space_char(c),
        NamedClass::NotWhitespace => !is_space_char(c),
    }
}

impl CharClass {
    /// Whether `c` is a member before negation is applied.
    pub open spec fn spec_contains_raw(&self, c: char) -> bool {
        ||| self.chars@.contains(c)
        ||| exists|i: int| 0 <= i < self.ranges@.len() && (#[trigger] self.ranges@[i]).0 <= c <= self.ranges@[i].1
        ||| exists|i: int| 0 <= i < self.named@.len() && named_matches(#[trigger] self.named@[i], c)
    }

    pub open spec fn spec_matches(&self, c: char) -> bool {
        self.spec_contains_raw(c) != self.negated
    }

    /// Membership test.
    pub fn matches(&self, c: char) -> (r: bool)
        ensures
            r == self.spec_matches(c),
    {
        let mut found = false;
        let mut i: usize = 0;
        while i < self.chars.len() && !found
            invariant
                0 <= i <= self.chars@.len(),
                found ==> self.chars@.contains(c),
                !found ==> forall|j: int| 0 <= j < i ==> self.chars@[j] != c,
            decreases self.chars@.len() - i,
        {
            if self.chars[i] == c {
                found = true;
            }
            i = i + 1;
        }
        if !found {
            assert(!self.chars@.contains(c)) by {
                if self.chars@.contains(c) {
                    let j = choose|j: int| 0 <= j < self.chars@.len() && self.chars@[j] == c;
                    assert(self.chars@[j] != c);
                }
            }
        }
        let mut in_range = false;
        let mut i: usize = 0;
        while i < self.ranges.len() && !in_range
            invariant
                0 <= i <= self.ranges@.len(),
                in_range ==> exists|j: int| 0 <= j < self.ranges@.len() && (#[trigger] self.ranges@[j]).0 <= c <= self.ranges@[j].1,
                !in_range ==> forall|j: int| 0 <= j < i ==> !((#[trigger] self.ranges@[j]).0 <= c <= self.ranges@[j].1),
            decreases self.ranges@.len() - i,
        {
            let (lo, hi) = self.ranges[i];
            if lo <= c && c <= hi {
                in_range = true;
            }
            i = i + 1;
        }
        let mut in_named = false;
        let mut i: usize = 0;
        while i < self.named.len() && !in_named
            invariant
                0 <= i <= self.named@.len(),
                in_named ==> exists|j: int| 0 <= j < self.named@.len() && named_matches(#[trigger] self.named@[j], c),
                !in_named ==> forall|j: int| 0 <= j < i ==> !named_matches(#[trigger] self.named@[j], c),
            decreases self.named@.len() - i,
        {
            if named_class_matches(self.named[i], c) {
                in_named = true;
            }
            i = i + 1;
        }
        (found || in_range || in_named) != self.negated
    }
}

pub fn named_class_matches(n: NamedClass, c: char) -> (r: bool)
    ensures
        r == named_matches(n, c),
{
    let digit = '0' <= c && c <= '9';
    let word = digit || ('a' <= c && c <= 'z') || ('A' <= c && c <= 'Z') || c == '_';
    let space = c == ' ' || c == '\t' || c == '\n' || c == '\r' || c == '\x0B' || c == '\x0C';
    match n {
        NamedClass::Digit => digit,
        NamedClass::NotDigit => !digit,
        NamedClass::Word => word,
        NamedClass::NotWord => !word,
        NamedClass::Whitespace => space,
        NamedClass::NotWhitespace => !space,
    }
}

impl Nfa {
    /// Every target index names a state and the start state exists.
    pub open spec fn wf(&self) -> bool {
        &&& self.start < self.states@.len()
        &&& forall|s: int| 0 <= s < self.states@.len() ==> #[trigger] state_targets_in(self.states@[s], self.states@.len())
    }
}

pub open spec fn state_targets_in(st: State, n: nat) -> bool {
    match st {
        State::Epsilon { targets } => forall|i: int| 0 <= i < targets@.len() ==> targets@[i] < n,
        State::Split { branches } => forall|i: int| 0 <= i < branches@.len() ==> branches@[i] < n,
        State::Char { next, .. } => next < n,
        State::CaptureStart { next, .. } => next < n,
        State::CaptureEnd { next, .. } => next < n,
        State::Anchor { next, .. } => next < n,
        State::ResetMatchStart { next } => next < n,
        State::FuzzyLiteral { next, .. } => next < n,
        _ => true,
    }
}

/// The states reached from `st` without consuming input.
pub open spec fn eps_succs(st: State) -> Seq<usize> {
    match st {
        State::Epsilon { targets } => targets@,
        State::Split { branches } => branches@,
        State::CaptureStart { next, .. } => seq![next],
        State::CaptureEnd { next, .. } => seq![next],
        State::Anchor { next, .. } => seq![next],
        _ => Seq::empty(),
    }
}

/// `p` is a walk along epsilon edges.
pub open spec fn is_eps_path(nfa: Nfa, p: Seq<usize>) -> bool {
    &&& p.len() > 0
    &&& forall|i: int| 0 <= i < p.len() - 1 ==> #[trigger] eps_edge(nfa, p[i], p[i + 1])
}

/// There is an epsilon edge from `x` to `y`.
pub open spec fn eps_edge(nfa: Nfa, x: usize, y: usize) -> bool {
    x < nfa.states@.len() && eps_succs(nfa.states@[x as int]).contains(y)
}

/// `b` is reachable from `a` through epsilon edges.
pub open spec fn reach(nfa: Nfa, a: usize, b: usize) -> bool {
    exists|p: Seq<usize>| #[trigger] is_eps_path(nfa, p) && p[0] == a && p.last() == b
}

pub proof fn lemma_reach_refl(nfa: Nfa, a: usize)
    ensures
        reach(nfa, a, a),
{
    let p = seq![a];
    assert(is_eps_path(nfa, p));
}

/// Reachability extends by one epsilon edge at the end.
pub proof fn lemma_reach_step(nfa: Nfa, a: usize, b: usize, i: int)
    requires
        reach(nfa, a, b),
        b < nfa.states@.len(),
        0 <= i < eps_succs(nfa.states@[b as int]).len(),
    ensures
        reach(nfa, a, eps_succs(nfa.states@[b as int])[i]),
{
    let c = eps_succs(nfa.states@[b as int])[i];
    let p = choose|p: Seq<usize>| #[trigger] is_eps_path(nfa, p) && p[0] == a && p.last() == b;
    let q = p.push(c);
    assert(eps_succs(nfa.states@[b as int]).contains(c));
    assert forall|k: int| 0 <= k < q.len() - 1 implies #[trigger] eps_edge(nfa, q[k], q[k + 1]) by {
        if k < p.len() - 1 {
            assert(q[k] == p[k] && q[k + 1] == p[k + 1]);
            assert(eps_edge(nfa, p[k], p[k + 1]));
        } else {
            assert(q[k] == p[p.len() - 1]);
            assert(q[k] == b && q[k + 1] == c);
        }
    }
    assert(is_eps_path(nfa, q));
    assert(q[0] == a && q.last() == c);
}

/// A set closed under epsilon edges that holds `a` holds everything reachable from `a`.
pub proof fn lemma_closed_contains_reach(nfa: Nfa, a: usize, b: usize, member: spec_fn(usize) -> bool)
    requires
        member(a),
        reach(nfa, a, b),
        forall|x: usize, y: usize|
            member(x) && x < nfa.states@.len() && #[trigger] eps_succs(nfa.states@[x as int]).contains(y)
                ==> #[trigger] member(y),
    ensures
        member(b),
{
    let p = choose|p: Seq<usize>| #[trigger] is_eps_path(nfa, p) && p[0] == a && p.last() == b;
    lemma_closed_path_prefix(nfa, p, member, p.len() - 1);
}

proof fn lemma_closed_path_prefix(nfa: Nfa, p: Seq<usize>, member: spec_fn(usize) -> bool, k: int)
    requires
        is_eps_path(nfa, p),
        member(p[0]),
        0 <= k < p.len(),
        forall|x: usize, y: usize|
            member(x) && x < nfa.states@.len() && #[trigger] eps_succs(nfa.states@[x as int]).contains(y)
                ==> #[trigger] member(y),
    ensures
        member(p[k]),
    decreases k,
{
    if k > 0 {
        lemma_closed_path_prefix(nfa, p, member, k - 1);
        assert(eps_edge(nfa, p[k - 1], p[(k - 1) + 1]));
    }
}

/// The named class of a `\\d+`-style pattern.
#[derive(Clone, Copy, PartialEq, Eq, Debug)]
pub enum ClassKind {
    Digit,
    Word,
    Whitespace,
    NotDigit,
    NotWord,
    NotWhitespace,
}

pub open spec fn named_kind(n: NamedClass) -> ClassKind {
    match n {
        NamedClass::Digit => ClassKind::Digit,
        NamedClass::NotDigit => ClassKind::NotDigit,
        NamedClass::Word => ClassKind::Word,
        NamedClass::NotWord => ClassKind::NotWord,
        NamedClass::Whitespace => ClassKind::Whitespace,
        NamedClass::NotWhitespace => ClassKind::NotWhitespace,
    }
}

impl Nfa {
    /// The named class of the start state, when the start state is a
    /// character state whose class is exactly one named class.
    pub open spec fn spec_char_class_type(&self) -> Option<ClassKind> {
        if self.start < self.states@.len() {
            match self.states@[self.start as int] {
                State::Char { class, .. } => if class.chars@.len() == 0 && class.ranges@.len() == 0
                    && class.named@.len() == 1 && !class.negated {
                    Some(named_kind(class.named@[0]))
                } else {
                    None
                },
                _ => None,
            }
        } else {
            None
        }
    }

    /// See [`Nfa::spec_char_class_type`].
    pub fn get_char_class_type(&self) -> (r: Option<ClassKind>)
        ensures
            r == self.spec_char_class_type(),
    {
        if self.start < self.states.len() {
            match &self.states[self.start] {
                State::Char { class, .. } => {
                    if class.chars.len() == 0 && class.ranges.len() == 0 && class.named.len() == 1 && !class.negated {
                        Some(
                            match class.named[0] {
                                NamedClass::Digit => ClassKind::Digit,
                                NamedClass::NotDigit => ClassKind::NotDigit,
                                NamedClass::Word => ClassKind::Word,
                                NamedClass::NotWord => ClassKind::NotWord,
                                NamedClass::Whitespace => ClassKind::Whitespace,
                                NamedClass::NotWhitespace => ClassKind::NotWhitespace,
                            },
                        )
                    } else {
                        None
                    }
                },
                _ => None,
            }
        } else {
            None
        }
    }

    /// The automaton is `C+`: a character state whose successor splits back
    /// to it or on to the accepting state.
    pub open spec fn spec_is_char_class_plus(&self) -> bool {
        self.start < self.states@.len() && match self.states@[self.start as int] {
            State::Char { next, .. } => next < self.states@.len() && match self.states@[next as int] {
                State::Split { branches } => branches@.len() == 2 && branches@[0] == self.start && branches@[1]
                    < self.states@.len() && self.states@[branches@[1] as int] is Accept,
                _ => false,
            },
            _ => false,
        }
    }

    /// See [`Nfa::spec_is_char_class_plus`].
    pub fn is_char_class_plus(&self) -> (r: bool)
        ensures
            r == self.spec_is_char_class_plus(),
    {
        if self.start >= self.states.len() {
            return false;
        }
        match &self.states[self.start] {
            State::Char { next, .. } => {
                if *next >= self.states.len() {
                    return false;
                }
                match &self.states[*next] {
                    State::Split { branches } => {
                        if branches.len() != 2 || branches[0] != self.start || branches[1] >= self.states.len() {
                            return false;
                        }
                        match &self.states[branches[1]] {
                            State::Accept => true,
                            _ => false,
                        }
                    },
                    _ => false,
                }
            },
            _ => false,
        }
    }
}

} // verus!
