//! Lazy DFA for exact matching, built from an NFA by subset construction.
//!
//! A DFA state stands for a set of (extended) NFA states.  Transitions are
//! computed on demand and cached; matching runs the automaton over the
//! characters of the text and reports the longest accepted end.
use vstd::prelude::*;
use crate::nfa::{
    Anchor, CharClass, Nfa, State, NamedClass, ClassKind, FuzzyLimits, is_ascii_char, ascii_lower, ascii_upper, reach, eps_edge,
    eps_succs, to_ascii_lower, to_ascii_upper, lemma_reach_refl, lemma_reach_step, lemma_closed_contains_reach,
};
use crate::state_set::{ExtState, ext_lt, sorted_set, set_contains, set_insert, set_equal, set_copy};
use crate::simd_class::{AsciiClassBitmap, RevSearchRanges, TeddySearch};
use crate::prefilter::{DfaPrefilter, pf_admits, pf_wf, next_candidate, extract_prefilter, in_ranges, prefilter_is, text_views};
use crate::text::{spec_char_lowercase, 
    byte_offset, is_boundary, offsets_of, decode_text, lemma_offset_strict, lemma_offset_bounds, lemma_offset_step,
    lemma_byte_at_offset, lemma_newline_byte,
};
use crate::bytesearch::{find_byte, rfind_byte, occurs_at, is_last_where};
use vstd::utf8::{encode_utf8, encode_scalar};

verus! {

/// Transition not computed yet.
pub const TRANS_UNKNOWN: u32 = 0xFFFF_FFFF;
/// Transition into the dead state.
pub const TRANS_DEAD: u32 = 0xFFFF_FFFE;
/// State ids are 32-bit and the two largest values are sentinels.
pub const MAX_STATES: usize = 0xFFFF_FFFE;

/// Calls `char::to_lowercase` and collects the characters it yields.
#[verifier::external_body]
fn char_lowercase(c: char) -> (r: Vec<char>)
    ensures
        r@ == spec_char_lowercase(c),
        is_ascii_char(c) ==> r@ == seq![ascii_lower(c)],
{
    c.to_lowercase().collect()
}

/// Calls `char::to_uppercase` and collects the characters it yields.
#[verifier::external_body]
fn char_uppercase(c: char) -> (r: Vec<char>)
    ensures
        r@ == spec_char_uppercase(c),
{
    c.to_uppercase().collect()
}

/// The characters of the Unicode uppercase mapping of `c`.
pub uninterp spec fn spec_char_uppercase(c: char) -> Seq<char>;

/// Some character of `vs` is in the class.
pub open spec fn any_admitted(class: CharClass, vs: Seq<char>) -> bool {
    exists|i: int| 0 <= i < vs.len() && class.spec_matches(#[trigger] vs[i])
}

fn any_admits(class: &CharClass, vs: &Vec<char>) -> (r: bool)
    ensures
        r == any_admitted(*class, vs@),
{
    let mut i: usize = 0;
    while i < vs.len()
        invariant
            i <= vs@.len(),
            forall|j: int| 0 <= j < i ==> !class.spec_matches(#[trigger] vs@[j]),
        decreases vs@.len() - i,
    {
        if class.matches(vs[i]) {
            return true;
        }
        i = i + 1;
    }
    false
}


/// The lowercase form of `c`, as a sequence of characters.
pub open spec fn lower_seq(c: char) -> Seq<char> {
    if is_ascii_char(c) {
        seq![ascii_lower(c)]
    } else {
        spec_char_lowercase(c)
    }
}

/// Character equality used for literal states (case-folded when `ci`).
pub open spec fn chars_match(ci: bool, t: char, p: char) -> bool {
    if !ci {
        t == p
    } else if is_ascii_char(t) && is_ascii_char(p) {
        ascii_lower(t) == ascii_lower(p)
    } else {
        lower_seq(t) == lower_seq(p)
    }
}

pub open spec fn is_literal_state(st: State) -> bool {
    st is FuzzyLiteral
}

pub open spec fn is_accept_state(st: State) -> bool {
    st is Accept
}

pub open spec fn is_anchor_state(st: State, kind: Anchor) -> bool {
    match st {
        State::Anchor { kind: k, .. } => k == kind,
        _ => false,
    }
}

/// Everything the meaning of a DFA depends on besides its caches.
pub struct DfaSpec {
    pub nfa: Nfa,
    pub lits: Seq<Seq<char>>,
    pub ci: bool,
    pub exact: bool,
    pub ml: bool,
    pub anchored_start: bool,
    pub anchored_end: bool,
}

impl DfaSpec {
    pub open spec fn state_at(self, id: usize) -> State {
        self.nfa.states@[id as int]
    }

    /// The extended state recorded when `id` is entered without consuming input.
    pub open spec fn norm(self, id: usize) -> ExtState {
        if is_literal_state(self.state_at(id)) {
            ExtState { state_id: id, literal_pos: 1 }
        } else {
            ExtState { state_id: id, literal_pos: 0 }
        }
    }

    /// The epsilon closure of `root`.
    pub open spec fn closure(self, root: usize) -> Set<ExtState> {
        Set::new(|e: ExtState| exists|id: usize| #[trigger] reach(self.nfa, root, id) && e == self.norm(id))
    }

    /// The class admits `c`; with case folding also its ASCII case
    /// variants, and for a character beyond ASCII any character of its
    /// Unicode lowercase or uppercase mapping.
    pub open spec fn class_hit(self, class: CharClass, c: char) -> bool {
        ||| class.spec_matches(c)
        ||| (self.ci && (class.spec_matches(ascii_lower(c)) || class.spec_matches(ascii_upper(c))))
        ||| (self.ci && !is_ascii_char(c) && (any_admitted(class, spec_char_lowercase(c)) || any_admitted(
            class,
            spec_char_uppercase(c),
        )))
    }

    /// The states reached from `e` by consuming `c`.
    pub open spec fn consume(self, e: ExtState, c: char) -> Set<ExtState> {
        if e.state_id >= self.nfa.states@.len() {
            Set::empty()
        } else {
            match self.state_at(e.state_id) {
                State::Char { class, next } => if self.class_hit(class, c) {
                    self.closure(next)
                } else {
                    Set::empty()
                },
                State::FuzzyLiteral { pattern_index, next, .. } => {
                    let off: int = if e.literal_pos == 0 { 0 } else { e.literal_pos - 1 };
                    if !self.exact && pattern_index < self.lits.len() && off < self.lits[pattern_index as int].len()
                        && chars_match(self.ci, c, self.lits[pattern_index as int][off]) {
                        if off + 1 == self.lits[pattern_index as int].len() {
                            self.closure(next)
                        } else {
                            set![ExtState { state_id: e.state_id, literal_pos: (off + 2) as usize }]
                        }
                    } else {
                        Set::empty()
                    }
                },
                _ => Set::empty(),
            }
        }
    }

    /// The subset-construction transition.
    pub open spec fn step(self, s: Set<ExtState>, c: char) -> Set<ExtState> {
        Set::new(|x: ExtState| exists|e: ExtState| s.contains(e) && #[trigger] self.consume(e, c).contains(x))
    }

    pub open spec fn accepting(self, s: Set<ExtState>) -> bool {
        exists|e: ExtState| #[trigger] s.contains(e) && e.state_id < self.nfa.states@.len() && is_accept_state(self.state_at(e.state_id))
    }

    pub open spec fn start_anchor(self, s: Set<ExtState>) -> bool {
        exists|e: ExtState| #[trigger] s.contains(e) && e.state_id < self.nfa.states@.len() && is_anchor_state(self.state_at(e.state_id), Anchor::Start)
    }

    pub open spec fn end_anchor(self, s: Set<ExtState>) -> bool {
        exists|e: ExtState| #[trigger] s.contains(e) && e.state_id < self.nfa.states@.len() && is_anchor_state(self.state_at(e.state_id), Anchor::End)
    }

    /// A set that holds, with each state, the closure entry of each epsilon successor.
    pub open spec fn closed(self, s: Set<ExtState>) -> bool {
        forall|e: ExtState, y: usize| s.contains(e) && #[trigger] eps_edge(self.nfa, e.state_id, y) ==> s.contains(#[trigger] self.norm(y))
    }

    /// Every entry names an NFA state.
    pub open spec fn valid_set(self, s: Seq<ExtState>) -> bool {
        forall|i: int| 0 <= i < s.len() ==> (#[trigger] s[i]).state_id < self.nfa.states@.len()
    }

    /// Start anchor (`^`) holds before character `k` of `s`.
    pub open spec fn start_ok(self, s: Seq<char>, k: int) -> bool {
        k == 0 || (self.ml && s[k - 1] == '\n')
    }

    /// End anchor (`$`) holds before character `k` of `s`.
    pub open spec fn end_ok(self, s: Seq<char>, k: int) -> bool {
        k == s.len() || (self.ml && s[k] == '\n')
    }

    /// The result recorded when the scan stops in `cur` before character `k`.
    pub open spec fn finish(self, cur: Set<ExtState>, s: Seq<char>, k: int, last: Option<int>) -> Option<int> {
        if self.end_anchor(cur) && self.end_ok(s, k) && self.accepting(cur) {
            Some(k)
        } else {
            last
        }
    }

    /// Runs the automaton from `cur` over `s[k..]`, tracking the last accepted end.
    pub open spec fn scan(self, cur: Set<ExtState>, s: Seq<char>, k: int, last: Option<int>) -> Option<int>
        decreases s.len() - k,
    {
        if k < 0 || k >= s.len() {
            self.finish(cur, s, k, last)
        } else {
            let nxt = self.step(cur, s[k]);
            if nxt.is_empty() {
                self.finish(cur, s, k, last)
            } else {
                let last2 = if self.accepting(nxt) && (!self.end_anchor(nxt) || self.end_ok(s, k + 1)) {
                    Some(k + 1)
                } else {
                    last
                };
                self.scan(nxt, s, k + 1, last2)
            }
        }
    }

    /// The end (as a character index) of the longest match starting at character `k0`.
    pub open spec fn match_end_from(self, s0: Set<ExtState>, s: Seq<char>, k0: int) -> Option<int> {
        if self.start_anchor(s0) && !self.start_ok(s, k0) {
            None
        } else {
            let last0 = if self.accepting(s0) && (!self.anchored_start || self.start_ok(s, k0)) && (
            !self.anchored_end || self.end_ok(s, k0)) {
                Some(k0)
            } else {
                None
            };
            self.scan(s0, s, k0, last0)
        }
    }

    /// The longest match starting at character `k0`, from the NFA's start closure.
    pub open spec fn match_end(self, s: Seq<char>, k0: int) -> Option<int> {
        self.match_end_from(self.closure(self.nfa.start), s, k0)
    }

    /// Like [`DfaSpec::scan`], but stops at the first accepted end.
    pub open spec fn scan_first(self, cur: Set<ExtState>, s: Seq<char>, k: int, last: Option<int>) -> Option<int>
        decreases s.len() - k,
    {
        if last is Some {
            last
        } else if k < 0 || k >= s.len() {
            self.finish(cur, s, k, last)
        } else {
            let nxt = self.step(cur, s[k]);
            if nxt.is_empty() {
                self.finish(cur, s, k, last)
            } else {
                let last2 = if self.accepting(nxt) && (!self.end_anchor(nxt) || self.end_ok(s, k + 1)) {
                    Some(k + 1)
                } else {
                    last
                };
                self.scan_first(nxt, s, k + 1, last2)
            }
        }
    }

    /// The end (as a character index) of the shortest match starting at
    /// character `k0`.
    pub open spec fn match_first_end(self, s: Seq<char>, k0: int) -> Option<int> {
        let s0 = self.closure(self.nfa.start);
        if self.start_anchor(s0) && !self.start_ok(s, k0) {
            None
        } else {
            let last0 = if self.accepting(s0) && (!self.anchored_start || self.start_ok(s, k0)) && (
            !self.anchored_end || self.end_ok(s, k0)) {
                Some(k0)
            } else {
                None
            };
            self.scan_first(s0, s, k0, last0)
        }
    }
}

/// Dense transition table for ASCII characters.
pub struct AsciiTransitions {
    pub table: Vec<u32>,
}

impl AsciiTransitions {
    pub fn new() -> (r: Self)
        ensures
            r.table@.len() == 128,
            forall|b: int| 0 <= b < 128 ==> #[trigger] r.table@[b] == TRANS_UNKNOWN,
    {
        let mut table: Vec<u32> = Vec::new();
        let mut i: usize = 0;
        while i < 128
            invariant
                0 <= i <= 128,
                table@.len() == i,
                forall|b: int| 0 <= b < i ==> #[trigger] table@[b] == TRANS_UNKNOWN,
            decreases 128 - i,
        {
            table.push(TRANS_UNKNOWN);
            i = i + 1;
        }
        AsciiTransitions { table }
    }

    pub fn get(&self, byte: u8) -> (r: u32)
        requires
            self.table@.len() == 128,
            byte < 128,
        ensures
            r == self.table@[byte as int],
    {
        self.table[byte as usize]
    }

    pub fn set(&mut self, byte: u8, state: u32)
        requires
            old(self).table@.len() == 128,
            byte < 128,
        ensures
            final(self).table@ == old(self).table@.update(byte as int, state),
    {
        self.table.set(byte as usize, state);
    }
}

/// A DFA state: the NFA states it stands for, its flags and its caches.
pub struct DfaState {
    pub nfa_states: Vec<ExtState>,
    pub is_accept: bool,
    pub has_start_anchor: bool,
    pub has_end_anchor: bool,
    pub ascii_transitions: AsciiTransitions,
    pub unicode_transitions: Vec<(char, u32)>,
}

/// Lazy DFA for fast exact matching.
pub struct Dfa {
    nfa: Nfa,
    literal_texts: Vec<String>,
    literal_chars: Vec<Vec<char>>,
    states: Vec<DfaState>,
    start: u32,
    anchored_start: bool,
    anchored_end: bool,
    case_insensitive: bool,
    multi_line: bool,
    char_class_bitmaps: Vec<Option<AsciiClassBitmap>>,
    prefilter: DfaPrefilter,
    exact_mode: bool,
    fast_path_char_class_plus: bool,
    fast_path_char_class_type: Option<ClassKind>,
    fast_path_literal: Option<Vec<u8>>,
}

/// A match: byte offsets of its start and end.
#[derive(Clone, Copy, Debug, PartialEq, Eq)]
pub struct DfaMatch {
    pub start: usize,
    pub end: usize,
}

pub open spec fn opt_int(o: Option<usize>) -> Option<int> {
    match o {
        Some(v) => Some(v as int),
        None => None,
    }
}

pub open spec fn set_of(v: Seq<ExtState>) -> Set<ExtState> {
    v.to_set()
}

impl Dfa {
    pub closed spec fn spec(&self) -> DfaSpec {
        DfaSpec {
            nfa: self.nfa,
            lits: self.literal_chars@.map_values(|v: Vec<char>| v@),
            ci: self.case_insensitive,
            exact: self.exact_mode,
            ml: self.multi_line,
            anchored_start: self.anchored_start,
            anchored_end: self.anchored_end,
        }
    }

    pub closed spec fn num_states(&self) -> nat {
        self.states@.len()
    }

    /// The NFA states that DFA state `i` stands for.
    pub closed spec fn state_set(&self, i: int) -> Set<ExtState> {
        set_of(self.states@[i].nfa_states@)
    }

    pub closed spec fn start_id(&self) -> int {
        self.start as int
    }

    pub closed spec fn state_wf(&self, st: DfaState) -> bool {
        self.state_wf_n(st, self.states@.len() as int)
    }

    /// `st` is consistent with the NFA, and its cached targets are below `n`.
    pub closed spec fn state_wf_n(&self, st: DfaState, n: int) -> bool {
        let sp = self.spec();
        &&& sorted_set(st.nfa_states@)
        &&& sp.valid_set(st.nfa_states@)
        &&& st.is_accept == sp.accepting(set_of(st.nfa_states@))
        &&& st.has_start_anchor == sp.start_anchor(set_of(st.nfa_states@))
        &&& st.has_end_anchor == sp.end_anchor(set_of(st.nfa_states@))
        &&& st.ascii_transitions.table@.len() == 128
        &&& forall|b: int| 0 <= b < 128 ==> #[trigger] st.ascii_transitions.table@[b] == TRANS_UNKNOWN
            || st.ascii_transitions.table@[b] == TRANS_DEAD || st.ascii_transitions.table@[b] < n
        &&& forall|a: int, b: int| 0 <= a < b < st.unicode_transitions@.len() ==> (#[trigger] st.unicode_transitions@[a]).0
            != (#[trigger] st.unicode_transitions@[b]).0
        &&& forall|a: int| 0 <= a < st.unicode_transitions@.len() ==> (#[trigger] st.unicode_transitions@[a]).1 == TRANS_DEAD
            || st.unicode_transitions@[a].1 < n
    }

    /// Internal consistency of the automaton.
    pub closed spec fn wf(&self) -> bool {
        &&& self.nfa.wf()
        &&& self.literal_chars@.len() == self.literal_texts@.len()
        &&& forall|i: int| 0 <= i < self.literal_chars@.len() ==> (#[trigger] self.literal_chars@[i])@ == self.literal_texts@[i]@
        &&& self.char_class_bitmaps@.len() == self.nfa.states@.len()
        &&& forall|id: int| 0 <= id < self.nfa.states@.len() ==> #[trigger] bitmap_ok(self.char_class_bitmaps@[id], self.nfa.states@[id])
        &&& 1 <= self.states@.len() <= MAX_STATES
        &&& self.start < self.states@.len()
        &&& forall|i: int| 0 <= i < self.states@.len() ==> #[trigger] self.state_wf(self.states@[i])
        &&& forall|i: int, j: int| 0 <= i < j < self.states@.len() ==> (#[trigger] self.states@[i]).nfa_states@
            != (#[trigger] self.states@[j]).nfa_states@
        &&& pf_wf(self.prefilter)
        &&& self.fast_path_char_class_plus ==> self.fast_path_char_class_type is Some
    }

    /// Every cached transition agrees with the subset construction, and the
    /// start state is the closure of the NFA start.
    pub closed spec fn sound(&self) -> bool {
        let sp = self.spec();
        &&& self.state_set(self.start as int) == sp.closure(sp.nfa.start)
        &&& forall|i: int, b: int| 0 <= i < self.states@.len() && 0 <= b < 128 ==> #[trigger] self.cached_ok(i, b as char, self.states@[i].ascii_transitions.table@[b])
        &&& forall|i: int, a: int| 0 <= i < self.states@.len() && 0 <= a < self.states@[i].unicode_transitions@.len()
            ==> #[trigger] self.cached_ok(i, self.states@[i].unicode_transitions@[a].0, self.states@[i].unicode_transitions@[a].1)
    }

    pub closed spec fn cached_ok(&self, i: int, c: char, t: u32) -> bool {
        let st = self.spec().step(self.state_set(i), c);
        &&& t == TRANS_DEAD ==> st.is_empty()
        &&& (t != TRANS_DEAD && t != TRANS_UNKNOWN) ==> (t < self.states@.len() && self.state_set(t as int) == st
            && !st.is_empty())
    }

    /// States that existed before keep their sets and flags.
    pub closed spec fn extends(&self, old: &Dfa) -> bool {
        &&& self.spec() == old.spec()
        &&& old.states@.len() <= self.states@.len()
        &&& self.start == old.start
        &&& forall|i: int| 0 <= i < old.states@.len() ==> (#[trigger] self.states@[i]).nfa_states@ == old.states@[i].nfa_states@
        &&& self.search_prefilter() == old.search_prefilter()
        &&& self.class_plus_kind() == old.class_plus_kind()
        &&& self.literal_fast() == old.literal_fast()
    }

    /// ASCII transitions that were cached in `old` are still cached.
    pub closed spec fn keeps_known(&self, old: &Dfa) -> bool {
        forall|i: int, b: int|
            0 <= i < old.states@.len() && 0 <= b < 128 && #[trigger] old.states@[i].ascii_transitions.table@[b]
                != TRANS_UNKNOWN ==> self.states@[i].ascii_transitions.table@[b] != TRANS_UNKNOWN
    }

    proof fn lemma_keeps_known_trans(a: &Dfa, b: &Dfa, c: &Dfa)
        requires
            b.keeps_known(a),
            c.keeps_known(b),
            a.states@.len() <= b.states@.len(),
        ensures
            c.keeps_known(a),
    {
        assert forall|i: int, x: int|
            0 <= i < a.states@.len() && 0 <= x < 128 && #[trigger] a.states@[i].ascii_transitions.table@[x]
                != TRANS_UNKNOWN implies c.states@[i].ascii_transitions.table@[x] != TRANS_UNKNOWN by {
            assert(b.states@[i].ascii_transitions.table@[x] != TRANS_UNKNOWN);
        }
    }

    /// Every ASCII transition of every state is cached.
    pub closed spec fn ascii_complete(&self) -> bool {
        forall|i: int, b: int|
            0 <= i < self.states@.len() && 0 <= b < 128 ==> #[trigger] self.states@[i].ascii_transitions.table@[b]
                != TRANS_UNKNOWN
    }

    /// The prefilter that picks candidate start positions.
    pub closed spec fn search_prefilter(&self) -> DfaPrefilter {
        self.prefilter
    }

    /// The named class of the `C+` fast path, when it is enabled.
    pub closed spec fn class_plus_kind(&self) -> Option<ClassKind> {
        if self.fast_path_char_class_plus {
            self.fast_path_char_class_type
        } else {
            None
        }
    }

    /// The bytes of the literal fast path, when it is enabled.
    pub closed spec fn literal_fast(&self) -> Option<Seq<u8>> {
        match self.fast_path_literal {
            Some(l) => Some(l@),
            None => None,
        }
    }
}

impl DfaSpec {
    /// NFA states whose closure entry is present in `r`.
    pub open spec fn done_ids(self, r: Set<ExtState>) -> Set<int> {
        Set::new(|i: int| 0 <= i < self.nfa.states@.len() && r.contains(self.norm(i as usize)))
    }
}

proof fn lemma_done_bounds(sp: DfaSpec, r: Set<ExtState>)
    ensures
        sp.done_ids(r).finite(),
        sp.done_ids(r).len() <= sp.nfa.states@.len(),
{
    let n = sp.nfa.states@.len() as int;
    vstd::set_lib::lemma_int_range(0, n);
    assert(sp.done_ids(r).subset_of(vstd::set_lib::set_int_range(0, n)));
    vstd::set_lib::lemma_len_subset(sp.done_ids(r), vstd::set_lib::set_int_range(0, n));
}

proof fn lemma_done_insert(sp: DfaSpec, r: Set<ExtState>, id: usize)
    requires
        id < sp.nfa.states@.len(),
        !r.contains(sp.norm(id)),
    ensures
        sp.done_ids(r.insert(sp.norm(id))).len() == sp.done_ids(r).len() + 1,
{
    lemma_done_bounds(sp, r);
    assert(sp.done_ids(r.insert(sp.norm(id))) =~= sp.done_ids(r).insert(id as int)) by {
        assert forall|i: int| #[trigger] sp.done_ids(r.insert(sp.norm(id))).contains(i) <==> sp.done_ids(r).insert(id as int).contains(i) by {
            if 0 <= i < sp.nfa.states@.len() && sp.norm(i as usize) == sp.norm(id) {
                assert(sp.nfa.states.len() == sp.nfa.states@.len());
                assert(sp.norm(i as usize).state_id == i as usize);
                assert(sp.norm(id).state_id == id);
                assert(i == id);
            }
        }
    }
    assert(!sp.done_ids(r).contains(id as int));
}

/// Case variants of an ASCII character lead to the same subset-construction step.
proof fn lemma_ci_variant_step(sp: DfaSpec, s: Set<ExtState>, c: char, v: char)
    requires
        sp.ci,
        is_ascii_char(c),
        v == ascii_lower(c) || v == ascii_upper(c),
    ensures
        sp.step(s, v) == sp.step(s, c),
{
    assert(is_ascii_char(v));
    assert(ascii_lower(v) == ascii_lower(c));
    assert(ascii_upper(v) == ascii_upper(c) || v == c || ascii_lower(c) == c || ascii_upper(c) == c);
    assert forall|e: ExtState| #[trigger] sp.consume(e, v) == sp.consume(e, c) by {
        if e.state_id < sp.nfa.states@.len() {
            match sp.state_at(e.state_id) {
                State::Char { class, next } => {
                    assert(sp.class_hit(class, v) == sp.class_hit(class, c));
                },
                State::FuzzyLiteral { pattern_index, next, .. } => {
                    assert(lower_seq(v) == lower_seq(c));
                },
                _ => {},
            }
        }
    }
    assert forall|x: ExtState| sp.step(s, v).contains(x) <==> sp.step(s, c).contains(x) by {
        if sp.step(s, v).contains(x) {
            let e = choose|e: ExtState| s.contains(e) && #[trigger] sp.consume(e, v).contains(x);
            assert(sp.consume(e, v) == sp.consume(e, c));
            assert(sp.consume(e, c).contains(x));
        }
        if sp.step(s, c).contains(x) {
            let e = choose|e: ExtState| s.contains(e) && #[trigger] sp.consume(e, c).contains(x);
            assert(sp.consume(e, v) == sp.consume(e, c));
            assert(sp.consume(e, v).contains(x));
        }
    }
    assert(sp.step(s, v) =~= sp.step(s, c));
}

fn is_ascii(c: char) -> (r: bool)
    ensures
        r == is_ascii_char(c),
{
    (c as u32) < 128
}

fn char_vec_eq(a: &Vec<char>, b: &Vec<char>) -> (r: bool)
    ensures
        r == (a@ == b@),
{
    if a.len() != b.len() {
        return false;
    }
    let mut i: usize = 0;
    while i < a.len()
        invariant
            a@.len() == b@.len(),
            0 <= i <= a@.len(),
            forall|j: int| 0 <= j < i ==> a@[j] == b@[j],
        decreases a@.len() - i,
    {
        if a[i] != b[i] {
            return false;
        }
        i = i + 1;
    }
    assert(a@ =~= b@);
    true
}

/// Character comparison of a text character against a literal character.
fn chars_match_exec(ci: bool, t: char, p: char) -> (r: bool)
    ensures
        r == chars_match(ci, t, p),
{
    if ci {
        if is_ascii(t) && is_ascii(p) {
            to_ascii_lower(t) == to_ascii_lower(p)
        } else {
            let a = char_lowercase(t);
            let b = char_lowercase(p);
            char_vec_eq(&a, &b)
        }
    } else {
        t == p
    }
}

pub open spec fn keys_unique(v: Seq<(char, u32)>) -> bool {
    forall|a: int, b: int| 0 <= a < b < v.len() ==> (#[trigger] v[a]).0 != (#[trigger] v[b]).0
}

fn unicode_get(v: &Vec<(char, u32)>, ch: char) -> (r: Option<u32>)
    ensures
        match r {
            Some(t) => exists|a: int| 0 <= a < v@.len() && #[trigger] v@[a] == (ch, t),
            None => forall|a: int| 0 <= a < v@.len() ==> (#[trigger] v@[a]).0 != ch,
        },
{
    let mut i: usize = 0;
    while i < v.len()
        invariant
            0 <= i <= v@.len(),
            forall|a: int| 0 <= a < i ==> (#[trigger] v@[a]).0 != ch,
        decreases v@.len() - i,
    {
        if v[i].0 == ch {
            let t = v[i].1;
            assert(v@[i as int] == (ch, t));
            return Some(t);
        }
        i = i + 1;
    }
    None
}

fn unicode_insert(v: &mut Vec<(char, u32)>, ch: char, t: u32)
    requires
        keys_unique(old(v)@),
    ensures
        keys_unique(final(v)@),
        exists|a: int| 0 <= a < final(v)@.len() && #[trigger] final(v)@[a] == (ch, t),
        forall|a: int| 0 <= a < final(v)@.len() ==> (#[trigger] final(v)@[a]) == (ch, t) || exists|b: int|
            0 <= b < old(v)@.len() && #[trigger] old(v)@[b] == final(v)@[a],
{
    let mut i: usize = 0;
    while i < v.len()
        invariant
            0 <= i <= v@.len(),
            v@ == old(v)@,
            keys_unique(old(v)@),
            forall|a: int| 0 <= a < i ==> (#[trigger] v@[a]).0 != ch,
        decreases v@.len() - i,
    {
        if v[i].0 == ch {
            v.set(i, (ch, t));
            proof {
                assert(v@[i as int] == (ch, t));
                assert forall|a: int| 0 <= a < v@.len() implies (#[trigger] v@[a]) == (ch, t) || exists|b: int|
                    0 <= b < old(v)@.len() && #[trigger] old(v)@[b] == v@[a] by {
                    if a != i {
                        assert(old(v)@[a] == v@[a]);
                    }
                }
                assert forall|a: int, b: int| 0 <= a < b < v@.len() implies (#[trigger] v@[a]).0 != (#[trigger] v@[b]).0 by {
                    assert(old(v)@[a].0 != old(v)@[b].0);
                }
            }
            return;
        }
        i = i + 1;
    }
    let ghost before = v@;
    v.push((ch, t));
    proof {
        assert(v@[before.len() as int] == (ch, t));
        assert forall|a: int| 0 <= a < v@.len() implies (#[trigger] v@[a]) == (ch, t) || exists|b: int|
            0 <= b < old(v)@.len() && #[trigger] old(v)@[b] == v@[a] by {
            if a < before.len() {
                assert(old(v)@[a] == v@[a]);
            }
        }
    }
}

impl Dfa {
    fn normalize(&self, id: usize) -> (r: ExtState)
        requires
            id < self.nfa.states@.len(),
        ensures
            r == self.spec().norm(id),
    {
        match &self.nfa.states[id] {
            State::FuzzyLiteral { .. } => ExtState { state_id: id, literal_pos: 1 },
            _ => ExtState::new(id),
        }
    }

    /// Whether the character class of `Char` state `id` admits `ch`.
    fn class_admits(&self, id: usize, class: &CharClass, ch: char) -> (r: bool)
        requires
            self.wf(),
            id < self.nfa.states@.len(),
            self.nfa.states@[id as int] matches State::Char { class: c, .. } && c == *class,
        ensures
            r == self.spec().class_hit(*class, ch),
    {
        assert(bitmap_ok(self.char_class_bitmaps@[id as int], self.nfa.states@[id as int]));
        if is_ascii(ch) {
            if id < self.char_class_bitmaps.len() {
                if let Some(bitmap) = &self.char_class_bitmaps[id] {
                    let b = ch as u32 as u8;
                    let result = bitmap.contains(b);
                    proof {
                        assert(b as char == ch);
                    }
                    if self.case_insensitive {
                        let lo = to_ascii_lower(ch) as u32 as u8;
                        let up = to_ascii_upper(ch) as u32 as u8;
                        proof {
                            assert(lo as char == ascii_lower(ch));
                            assert(up as char == ascii_upper(ch));
                        }
                        result || bitmap.contains(lo) || bitmap.contains(up)
                    } else {
                        result
                    }
                } else {
                    class.matches(ch)
                }
            } else {
                class.matches(ch)
            }
        } else {
            if self.case_insensitive {
                class.matches(ch) || class.matches(to_ascii_lower(ch)) || class.matches(to_ascii_upper(ch)) || any_admits(
                    class,
                    &char_lowercase(ch),
                ) || any_admits(class, &char_uppercase(ch))
            } else {
                class.matches(ch)
            }
        }
    }

    /// Adds the states reached from `ext` on `ch` to `next_set`.
    fn add_successors(&self, ext: ExtState, ch: char, next_set: &mut Vec<ExtState>)
        requires
            self.wf(),
            ext.state_id < self.nfa.states@.len(),
            sorted_set(old(next_set)@),
            self.spec().valid_set(old(next_set)@),
            self.spec().closed(set_of(old(next_set)@)),
        ensures
            sorted_set(final(next_set)@),
            self.spec().valid_set(final(next_set)@),
            self.spec().closed(set_of(final(next_set)@)),
            set_of(final(next_set)@) == set_of(old(next_set)@).union(self.spec().consume(ext, ch)),
    {
        let ghost sp = self.spec();
        let nfa_state = ext.state_id;
        assert(crate::nfa::state_targets_in(self.nfa.states@[nfa_state as int], self.nfa.states@.len()));
        match &self.nfa.states[nfa_state] {
            State::Char { class, next } => {
                if self.class_admits(nfa_state, class, ch) {
                    self.epsilon_closure(*next, next_set);
                } else {
                    assert(set_of(next_set@) =~= set_of(next_set@).union(sp.consume(ext, ch)));
                }
            },
            State::FuzzyLiteral { pattern_index, next, .. } => {
                if !self.exact_mode {
                    let offset: usize = if ext.literal_pos == 0 { 0 } else { ext.literal_pos - 1 };
                    if *pattern_index < self.literal_chars.len() {
                        let pattern_chars = &self.literal_chars[*pattern_index];
                        proof {
                            assert(sp.lits[*pattern_index as int] == pattern_chars@);
                        }
                        if offset < pattern_chars.len() && chars_match_exec(self.case_insensitive, ch, pattern_chars[offset]) {
                            if offset + 1 == pattern_chars.len() {
                                self.epsilon_closure(*next, next_set);
                            } else {
                                let ghost before = next_set@;
                                let e = ExtState::with_offset(nfa_state, offset + 1);
                                set_insert(next_set, e);
                                proof {
                                    assert(sp.consume(ext, ch) =~= set![e]);
                                    assert(set_of(next_set@) =~= set_of(before).union(sp.consume(ext, ch)));
                                    assert forall|i: int| 0 <= i < next_set@.len() implies (#[trigger] next_set@[i]).state_id < self.nfa.states@.len() by {
                                        assert(set_of(next_set@).contains(next_set@[i]));
                                        if next_set@[i] != e {
                                            assert(set_of(before).contains(next_set@[i]));
                                            let j = choose|j: int| 0 <= j < before.len() && before[j] == next_set@[i];
                                        }
                                    }
                                    assert forall|e2: ExtState, y: usize| set_of(next_set@).contains(e2) && #[trigger] eps_edge(self.nfa, e2.state_id, y)
                                        implies set_of(next_set@).contains(#[trigger] sp.norm(y)) by {
                                        if e2 == e {
                                            assert(eps_succs(self.nfa.states@[nfa_state as int]).len() == 0);
                                        } else {
                                            assert(set_of(before).contains(e2));
                                        }
                                    }
                                }
                            }
                        } else {
                            assert(set_of(next_set@) =~= set_of(next_set@).union(sp.consume(ext, ch)));
                        }
                    } else {
                        assert(set_of(next_set@) =~= set_of(next_set@).union(sp.consume(ext, ch)));
                    }
                } else {
                    assert(set_of(next_set@) =~= set_of(next_set@).union(sp.consume(ext, ch)));
                }
            },
            _ => {
                assert(set_of(next_set@) =~= set_of(next_set@).union(sp.consume(ext, ch)));
            },
        }
    }

    /// The subset-construction step from DFA state `idx` on `ch`, as a sorted set.
    fn compute_step(&self, idx: usize, ch: char) -> (r: Vec<ExtState>)
        requires
            self.wf(),
            idx < self.states@.len(),
        ensures
            sorted_set(r@),
            self.spec().valid_set(r@),
            set_of(r@) == self.spec().step(self.state_set(idx as int), ch),
    {
        let ghost sp = self.spec();
        assert(self.state_wf(self.states@[idx as int]));
        let current = set_copy(&self.states[idx].nfa_states);
        let mut next_set: Vec<ExtState> = Vec::new();
        let mut i: usize = 0;
        assert(set_of(next_set@) =~= Set::<ExtState>::empty());
        while i < current.len()
            invariant
                self.wf(),
                sp == self.spec(),
                0 <= i <= current@.len(),
                current@ == self.states@[idx as int].nfa_states@,
                sp.valid_set(current@),
                sorted_set(next_set@),
                sp.valid_set(next_set@),
                sp.closed(set_of(next_set@)),
                set_of(next_set@) == Set::new(|x: ExtState| exists|j: int| 0 <= j < i && #[trigger] sp.consume(current@[j], ch).contains(x)),
            decreases current@.len() - i,
        {
            let ghost before = set_of(next_set@);
            self.add_successors(current[i], ch, &mut next_set);
            proof {
                assert(set_of(next_set@) =~= Set::new(|x: ExtState| exists|j: int| 0 <= j < i + 1 && #[trigger] sp.consume(current@[j], ch).contains(x))) by {
                    assert forall|x: ExtState| set_of(next_set@).contains(x) implies exists|j: int| 0 <= j < i + 1 && #[trigger] sp.consume(current@[j], ch).contains(x) by {
                        if !before.contains(x) {
                            assert(sp.consume(current@[i as int], ch).contains(x));
                        }
                    }
                }
            }
            i = i + 1;
        }
        proof {
            let st = self.state_set(idx as int);
            assert(set_of(next_set@) =~= sp.step(st, ch)) by {
                assert forall|x: ExtState| set_of(next_set@).contains(x) <==> sp.step(st, ch).contains(x) by {
                    if set_of(next_set@).contains(x) {
                        let j = choose|j: int| 0 <= j < current@.len() && #[trigger] sp.consume(current@[j], ch).contains(x);
                        assert(st.contains(current@[j]));
                    }
                    if sp.step(st, ch).contains(x) {
                        let e = choose|e: ExtState| st.contains(e) && #[trigger] sp.consume(e, ch).contains(x);
                        let j = choose|j: int| 0 <= j < current@.len() && current@[j] == e;
                        assert(sp.consume(current@[j], ch).contains(x));
                    }
                }
            }
        }
        next_set
    }

    /// Records the ASCII transition `idx --b--> t`.
    fn cache_ascii(&mut self, idx: usize, b: u8, t: u32)
        requires
            old(self).wf(),
            idx < old(self).states@.len(),
            b < 128,
            t == TRANS_DEAD || t < old(self).states@.len(),
        ensures
            final(self).wf(),
            final(self).extends(old(self)),
            final(self).states@.len() == old(self).states@.len(),
            final(self).states@[idx as int].ascii_transitions.table@ == old(self).states@[idx as int].ascii_transitions.table@.update(b as int, t),
            final(self).states@[idx as int].unicode_transitions@ == old(self).states@[idx as int].unicode_transitions@,
            forall|i: int| 0 <= i < old(self).states@.len() && i != idx ==> #[trigger] final(self).states@[i] == old(self).states@[i],
            old(self).sound() && old(self).cached_ok(idx as int, b as char, t) ==> final(self).sound(),
            final(self).keeps_known(old(self)),
    {
        let ghost old_states = self.states@;
        assert(self.state_wf(self.states@[idx as int]));
        self.states[idx].ascii_transitions.set(b, t);
        proof {
            assert forall|i: int, bb: int|
                0 <= i < old_states.len() && 0 <= bb < 128 && #[trigger] old_states[i].ascii_transitions.table@[bb]
                    != TRANS_UNKNOWN implies self.states@[i].ascii_transitions.table@[bb] != TRANS_UNKNOWN by {
                if i != idx {
                    assert(self.states@[i] == old_states[i]);
                }
            }
        }
        proof {
            assert(self.spec() == old(self).spec());
            assert forall|j: int| 0 <= j < self.states@.len() implies #[trigger] self.state_wf(self.states@[j]) by {
                assert(old(self).state_wf(old_states[j]));
                if j != idx {
                    assert(self.states@[j] == old_states[j]);
                } else {
                    assert(self.states@[j].nfa_states == old_states[j].nfa_states);
                }
            }
            assert forall|a: int, c: int| 0 <= a < c < self.states@.len() implies (#[trigger] self.states@[a]).nfa_states@
                != (#[trigger] self.states@[c]).nfa_states@ by {
                assert(old_states[a].nfa_states@ != old_states[c].nfa_states@);
            }
            assert forall|i: int| 0 <= i < self.states@.len() implies #[trigger] self.state_set(i) == old(self).state_set(i) by {
                if i != idx {
                    assert(self.states@[i] == old_states[i]);
                }
            }
            if old(self).sound() && old(self).cached_ok(idx as int, b as char, t) {
                assert forall|i: int, bb: int| 0 <= i < self.states@.len() && 0 <= bb < 128 implies #[trigger] self.cached_ok(
                    i,
                    bb as char,
                    self.states@[i].ascii_transitions.table@[bb],
                ) by {
                    let tt = self.states@[i].ascii_transitions.table@[bb];
                    if !(i == idx && bb == b) {
                        assert(tt == old_states[i].ascii_transitions.table@[bb]);
                        assert(old(self).cached_ok(i, bb as char, tt));
                    }
                    if tt != TRANS_DEAD && tt != TRANS_UNKNOWN {
                        assert(self.state_set(tt as int) == old(self).state_set(tt as int));
                    }
                    assert(self.state_set(i) == old(self).state_set(i));
                }
                assert forall|i: int, a: int| 0 <= i < self.states@.len() && 0 <= a < self.states@[i].unicode_transitions@.len()
                    implies #[trigger] self.cached_ok(i, self.states@[i].unicode_transitions@[a].0, self.states@[i].unicode_transitions@[a].1) by {
                    let (c, tt) = self.states@[i].unicode_transitions@[a];
                    assert(self.states@[i].unicode_transitions@ == old_states[i].unicode_transitions@);
                    assert(old(self).cached_ok(i, c, tt));
                    if tt != TRANS_DEAD && tt != TRANS_UNKNOWN {
                        assert(self.state_set(tt as int) == old(self).state_set(tt as int));
                    }
                    assert(self.state_set(i) == old(self).state_set(i));
                }
            }
        }
    }

    /// Records the non-ASCII transition `idx --ch--> t`.
    fn cache_unicode(&mut self, idx: usize, ch: char, t: u32)
        requires
            old(self).wf(),
            idx < old(self).states@.len(),
            t == TRANS_DEAD || t < old(self).states@.len(),
        ensures
            final(self).wf(),
            final(self).extends(old(self)),
            final(self).states@.len() == old(self).states@.len(),
            final(self).states@[idx as int].ascii_transitions == old(self).states@[idx as int].ascii_transitions,
            forall|i: int| 0 <= i < old(self).states@.len() && i != idx ==> #[trigger] final(self).states@[i] == old(self).states@[i],
            old(self).sound() && old(self).cached_ok(idx as int, ch, t) ==> final(self).sound(),
            final(self).keeps_known(old(self)),
            exists|a: int|
                0 <= a < final(self).states@[idx as int].unicode_transitions@.len()
                    && #[trigger] final(self).states@[idx as int].unicode_transitions@[a] == (ch, t),
            forall|a: int|
                0 <= a < final(self).states@[idx as int].unicode_transitions@.len()
                    ==> (#[trigger] final(self).states@[idx as int].unicode_transitions@[a]) == (ch, t)
                    || old(self).states@[idx as int].unicode_transitions@.contains(final(self).states@[idx as int].unicode_transitions@[a]),
    {
        let ghost old_states = self.states@;
        assert(self.state_wf(self.states@[idx as int]));
        unicode_insert(&mut self.states[idx].unicode_transitions, ch, t);
        proof {
            assert forall|i: int, bb: int|
                0 <= i < old_states.len() && 0 <= bb < 128 && #[trigger] old_states[i].ascii_transitions.table@[bb]
                    != TRANS_UNKNOWN implies self.states@[i].ascii_transitions.table@[bb] != TRANS_UNKNOWN by {
                if i != idx {
                    assert(self.states@[i] == old_states[i]);
                }
            }
            assert(self.spec() == old(self).spec());
            let nu = self.states@[idx as int].unicode_transitions@;
            let ou = old_states[idx as int].unicode_transitions@;
            assert forall|j: int| 0 <= j < self.states@.len() implies #[trigger] self.state_wf(self.states@[j]) by {
                assert(old(self).state_wf(old_states[j]));
                if j != idx {
                    assert(self.states@[j] == old_states[j]);
                } else {
                    assert(self.states@[j].nfa_states == old_states[j].nfa_states);
                    assert forall|a: int| 0 <= a < nu.len() implies (#[trigger] nu[a]).1 == TRANS_DEAD || nu[a].1 < self.states@.len() by {
                        if nu[a] != (ch, t) {
                            let b = choose|b: int| 0 <= b < ou.len() && #[trigger] ou[b] == nu[a];
                        }
                    }
                }
            }
            assert forall|a: int, c: int| 0 <= a < c < self.states@.len() implies (#[trigger] self.states@[a]).nfa_states@
                != (#[trigger] self.states@[c]).nfa_states@ by {
                assert(old_states[a].nfa_states@ != old_states[c].nfa_states@);
            }
            assert forall|i: int| 0 <= i < self.states@.len() implies #[trigger] self.state_set(i) == old(self).state_set(i) by {
                if i != idx {
                    assert(self.states@[i] == old_states[i]);
                }
            }
            if old(self).sound() && old(self).cached_ok(idx as int, ch, t) {
                assert forall|i: int, bb: int| 0 <= i < self.states@.len() && 0 <= bb < 128 implies #[trigger] self.cached_ok(
                    i,
                    bb as char,
                    self.states@[i].ascii_transitions.table@[bb],
                ) by {
                    let tt = self.states@[i].ascii_transitions.table@[bb];
                    assert(tt == old_states[i].ascii_transitions.table@[bb]);
                    assert(old(self).cached_ok(i, bb as char, tt));
                    if tt != TRANS_DEAD && tt != TRANS_UNKNOWN {
                        assert(self.state_set(tt as int) == old(self).state_set(tt as int));
                    }
                    assert(self.state_set(i) == old(self).state_set(i));
                }
                assert forall|i: int, a: int| 0 <= i < self.states@.len() && 0 <= a < self.states@[i].unicode_transitions@.len()
                    implies #[trigger] self.cached_ok(i, self.states@[i].unicode_transitions@[a].0, self.states@[i].unicode_transitions@[a].1) by {
                    let (c, tt) = self.states@[i].unicode_transitions@[a];
                    if i != idx {
                        assert(self.states@[i] == old_states[i]);
                        assert(old(self).cached_ok(i, c, tt));
                    } else if (c, tt) != (ch, t) {
                        let b = choose|b: int| 0 <= b < ou.len() && #[trigger] ou[b] == nu[a];
                        assert(old(self).cached_ok(i, ou[b].0, ou[b].1));
                    }
                    if tt != TRANS_DEAD && tt != TRANS_UNKNOWN {
                        assert(self.state_set(tt as int) == old(self).state_set(tt as int));
                    }
                    assert(self.state_set(i) == old(self).state_set(i));
                }
            }
        }
    }

    /// The DFA state reached from `state_id` on `ch` (`None` for the dead state),
    /// computing and caching the transition when it is not cached yet.
    fn next_state(&mut self, state_id: u32, ch: char) -> (r: Option<u32>)
        requires
            old(self).wf(),
            state_id < old(self).states@.len(),
        ensures
            final(self).wf(),
            final(self).extends(old(self)),
            final(self).states@.len() <= old(self).states@.len() + 1,
            r matches Some(j) ==> j < final(self).states@.len(),
            old(self).sound() && final(self).states@.len() < MAX_STATES ==> match r {
                Some(j) => final(self).state_set(j as int) == old(self).spec().step(old(self).state_set(state_id as int), ch)
                    && !old(self).spec().step(old(self).state_set(state_id as int), ch).is_empty(),
                None => old(self).spec().step(old(self).state_set(state_id as int), ch).is_empty(),
            },
            old(self).sound() && final(self).states@.len() < MAX_STATES ==> final(self).sound(),
            final(self).keeps_known(old(self)),
            is_ascii_char(ch) ==> final(self).states@[state_id as int].ascii_transitions.table@[(ch as u32) as int]
                != TRANS_UNKNOWN,
            is_ascii_char(ch) && old(self).states@[state_id as int].ascii_transitions.table@[(ch as u32) as int]
                != TRANS_UNKNOWN ==> *final(self) == *old(self),
    {
        let state_idx = state_id as usize;
        assert(self.state_wf(self.states@[state_idx as int]));
        if is_ascii(ch) {
            let byte = ch as u32 as u8;
            assert(byte as char == ch);
            let cached = self.states[state_idx].ascii_transitions.get(byte);
            if cached != TRANS_UNKNOWN {
                proof {
                    if self.sound() {
                        assert(self.cached_ok(state_idx as int, byte as char, cached));
                    }
                }
                return if cached == TRANS_DEAD {
                    None
                } else {
                    Some(cached)
                };
            }
        } else {
            if let Some(cached) = unicode_get(&self.states[state_idx].unicode_transitions, ch) {
                proof {
                    if self.sound() {
                        let a = choose|a: int| 0 <= a < self.states@[state_idx as int].unicode_transitions@.len()
                            && #[trigger] self.states@[state_idx as int].unicode_transitions@[a] == (ch, cached);
                        assert(self.cached_ok(state_idx as int, self.states@[state_idx as int].unicode_transitions@[a].0,
                            self.states@[state_idx as int].unicode_transitions@[a].1));
                        assert(self.cached_ok(state_idx as int, ch, cached));
                    }
                }
                return if cached == TRANS_DEAD {
                    None
                } else {
                    Some(cached)
                };
            }
        }
        let ghost sp = self.spec();
        let ghost cur = self.state_set(state_idx as int);
        let next_set = self.compute_step(state_idx, ch);
        let ghost stepped = set_of(next_set@);
        let ghost s1 = *self;
        let next_id = if next_set.len() == 0 {
            assert(stepped =~= Set::<ExtState>::empty());
            TRANS_DEAD
        } else {
            assert(stepped.contains(next_set@[0]));
            self.get_or_create_state(next_set)
        };
        proof {
            assert(self.state_set(state_idx as int) == cur);
            if next_id != TRANS_DEAD {
                assert(self.state_set(next_id as int) == stepped);
            }
        }
        let ghost s2 = *self;
        if is_ascii(ch) {
            let byte = ch as u32 as u8;
            assert(byte as char == ch);
            self.cache_ascii(state_idx, byte, next_id);
            if self.case_insensitive {
                let lower = to_ascii_lower(ch) as u32 as u8;
                let upper = to_ascii_upper(ch) as u32 as u8;
                proof {
                    assert(lower as char == ascii_lower(ch));
                    assert(upper as char == ascii_upper(ch));
                    lemma_ci_variant_step(sp, cur, ch, ascii_lower(ch));
                    lemma_ci_variant_step(sp, cur, ch, ascii_upper(ch));
                }
                if lower != byte {
                    self.cache_ascii(state_idx, lower, next_id);
                }
                if upper != byte {
                    self.cache_ascii(state_idx, upper, next_id);
                }
            }
        } else {
            self.cache_unicode(state_idx, ch, next_id);
        }
        proof {
            assert(self.state_set(state_idx as int) == cur);
            if next_id != TRANS_DEAD {
                assert(self.state_set(next_id as int) == s2.state_set(next_id as int));
            }
        }
        if next_id == TRANS_DEAD {
            None
        } else {
            Some(next_id)
        }
    }

    /// The DFA is sound, and so stays sound while reading `s` (or any text).
    pub closed spec fn stable_for(&self, s: Seq<char>) -> bool {
        self.sound()
    }

    fn end_ok_at(chars: &Vec<char>, k: usize, ml: bool) -> (r: bool)
        requires
            k <= chars@.len(),
        ensures
            r == (k == chars@.len() || (ml && chars@[k as int] == '\n')),
    {
        k == chars.len() || (ml && chars[k] == '\n')
    }

    fn start_ok_at(chars: &Vec<char>, k: usize, ml: bool) -> (r: bool)
        requires
            k <= chars@.len(),
        ensures
            r == (k == 0 || (ml && chars@[k - 1] == '\n')),
    {
        k == 0 || (ml && chars[k - 1] == '\n')
    }

    /// Runs the DFA from its start state over `chars[k0..]`, starting from the
    /// recorded end `last0`, and returns the last accepted end (a character index).
    fn run(&mut self, chars: &Vec<char>, k0: usize, ml: bool, last0: Option<usize>) -> (r: Option<usize>)
        requires
            old(self).wf(),
            k0 <= chars@.len(),
            last0 matches Some(e) ==> k0 <= e <= chars@.len(),
        ensures
            final(self).wf(),
            final(self).extends(old(self)),
            r matches Some(e) ==> k0 <= e <= chars@.len(),
            old(self).stable_for(chars@) && final(self).states@.len() < MAX_STATES ==> final(self).sound() && opt_int(r)
                == ((DfaSpec { ml: ml, ..old(self).spec() }).scan(
                old(self).spec().closure(old(self).spec().nfa.start),
                chars@,
                k0 as int,
                opt_int(last0),
            )),
    {
        let ghost sp = self.spec();
        let ghost spm = DfaSpec { ml: ml, ..sp };
        let ghost good = self.stable_for(chars@);
        let ghost s = chars@;
        let ghost target = spm.scan(sp.closure(sp.nfa.start), s, k0 as int, opt_int(last0));
        let ghost mut cur = sp.closure(sp.nfa.start);
        let mut state_id = self.start;
        let mut last = last0;
        let mut k = k0;
        let mut dead = false;
        while k < chars.len() && !dead
            invariant
                self.wf(),
                self.extends(old(self)),
                sp == old(self).spec(),
                spm == (DfaSpec { ml: ml, ..sp }),
                s == chars@,
                k0 <= k <= chars@.len(),
                state_id < self.states@.len(),
                last matches Some(e) ==> k0 <= e <= chars@.len(),
                good == old(self).stable_for(chars@),
                good && self.states@.len() < MAX_STATES ==> self.sound() && self.state_set(state_id as int) == cur && (if dead {
                    target == spm.finish(cur, s, k as int, opt_int(last))
                } else {
                    target == spm.scan(cur, s, k as int, opt_int(last))
                }),
            decreases chars@.len() - k, (if dead { 0int } else { 1int }),
        {
            let ch = chars[k];
            let ghost before_len = self.states@.len();
            let ghost cur0 = cur;
            let ghost last_old = last;
            let ghost k_old = k;
            match self.next_state(state_id, ch) {
                Some(next_id) => {
                    proof {
                        if good && self.states@.len() < MAX_STATES {
                            cur = sp.step(cur, ch);
                        }
                    }
                    state_id = next_id;
                    k = k + 1;
                    assert(self.state_wf(self.states@[state_id as int]));
                    if self.states[state_id as usize].is_accept {
                        let end_ok = Self::end_ok_at(chars, k, ml);
                        if !self.states[state_id as usize].has_end_anchor || end_ok {
                            last = Some(k);
                        }
                    }
                    proof {
                        if good && self.states@.len() < MAX_STATES {
                            assert(before_len < MAX_STATES);
                            let nxt = sp.step(cur0, s[k_old as int]);
                            lemma_same_automaton(spm, sp, cur0, s[k_old as int]);
                            lemma_same_automaton(spm, sp, nxt, s[k_old as int]);
                            assert(cur == nxt);
                            assert(spm.step(cur0, s[k_old as int]) == nxt);
                            assert(spm.accepting(nxt) == sp.accepting(nxt));
                            assert(spm.end_anchor(nxt) == sp.end_anchor(nxt));
                            assert(spm.scan(cur0, s, k_old as int, opt_int(last_old)) == spm.scan(cur, s, k as int, opt_int(last)));
                        }
                    }
                },
                None => {
                    dead = true;
                    proof {
                        if good && self.states@.len() < MAX_STATES {
                            assert(sp.step(cur0, s[k_old as int]).is_empty());
                            lemma_same_automaton(spm, sp, cur0, s[k_old as int]);
                            assert(spm.step(cur0, s[k_old as int]) == sp.step(cur0, s[k_old as int]));
                            assert(spm.step(cur0, s[k_old as int]).is_empty());
                        }
                    }
                },
            }
        }
        assert(self.state_wf(self.states@[state_id as int]));
        if self.states[state_id as usize].has_end_anchor {
            let end_ok = Self::end_ok_at(chars, k, ml);
            if end_ok && self.states[state_id as usize].is_accept {
                last = Some(k);
            }
        }
        last
    }

    /// Longest match starting at character `k0`; the result is its end (a character index).
    fn find_at_chars(&mut self, chars: &Vec<char>, k0: usize) -> (r: Option<usize>)
        requires
            old(self).wf(),
            k0 <= chars@.len(),
        ensures
            final(self).wf(),
            final(self).extends(old(self)),
            r matches Some(e) ==> k0 <= e <= chars@.len(),
            old(self).stable_for(chars@) && final(self).states@.len() < MAX_STATES ==> final(self).sound() && opt_int(r)
                == old(self).spec().match_end(chars@, k0 as int),
    {
        let ghost sp = self.spec();
        let ml = self.multi_line;
        let start_ok = Self::start_ok_at(chars, k0, ml);
        let start_idx = self.start as usize;
        assert(self.state_wf(self.states@[start_idx as int]));
        let mut last: Option<usize> = None;
        if self.states[start_idx].is_accept {
            if !self.anchored_start || start_ok {
                let end_ok = Self::end_ok_at(chars, k0, ml);
                if !self.anchored_end || end_ok {
                    last = Some(k0);
                }
            }
        }
        if self.states[start_idx].has_start_anchor && !start_ok {
            return None;
        }
        proof {
            assert(sp.ml == ml);
            assert((DfaSpec { ml: ml, ..sp }) == sp);
        }
        self.run(chars, k0, ml, last)
    }

    /// Runs the DFA from its start state over `chars[k0..]` until it first
    /// accepts (or `last0` is already an end), and returns that end.
    fn run_first(&mut self, chars: &Vec<char>, k0: usize, ml: bool, last0: Option<usize>) -> (r: Option<usize>)
        requires
            old(self).wf(),
            k0 <= chars@.len(),
            last0 matches Some(e) ==> k0 <= e <= chars@.len(),
        ensures
            final(self).wf(),
            final(self).extends(old(self)),
            r matches Some(e) ==> k0 <= e <= chars@.len(),
            old(self).stable_for(chars@) && final(self).states@.len() < MAX_STATES ==> final(self).sound() && opt_int(r)
                == ((DfaSpec { ml: ml, ..old(self).spec() }).scan_first(
                old(self).spec().closure(old(self).spec().nfa.start),
                chars@,
                k0 as int,
                opt_int(last0),
            )),
    {
        let ghost sp = self.spec();
        let ghost spm = DfaSpec { ml: ml, ..sp };
        let ghost good = self.stable_for(chars@);
        let ghost s = chars@;
        let ghost target = spm.scan_first(sp.closure(sp.nfa.start), s, k0 as int, opt_int(last0));
        let ghost mut cur = sp.closure(sp.nfa.start);
        let mut state_id = self.start;
        let mut last = last0;
        let mut k = k0;
        let mut dead = false;
        while k < chars.len() && !dead && last.is_none()
            invariant
                self.wf(),
                self.extends(old(self)),
                sp == old(self).spec(),
                spm == (DfaSpec { ml: ml, ..sp }),
                s == chars@,
                k0 <= k <= chars@.len(),
                state_id < self.states@.len(),
                last matches Some(e) ==> k0 <= e <= chars@.len(),
                good == old(self).stable_for(chars@),
                dead ==> last is None,
                good && self.states@.len() < MAX_STATES ==> self.sound() && self.state_set(state_id as int) == cur && (if dead {
                    target == spm.finish(cur, s, k as int, opt_int(last))
                } else {
                    target == spm.scan_first(cur, s, k as int, opt_int(last))
                }),
            decreases chars@.len() - k, (if dead { 0int } else { 1int }),
        {
            let ch = chars[k];
            let ghost before_len = self.states@.len();
            let ghost cur0 = cur;
            let ghost last_old = last;
            let ghost k_old = k;
            match self.next_state(state_id, ch) {
                Some(next_id) => {
                    proof {
                        if good && self.states@.len() < MAX_STATES {
                            cur = sp.step(cur, ch);
                        }
                    }
                    state_id = next_id;
                    k = k + 1;
                    assert(self.state_wf(self.states@[state_id as int]));
                    if self.states[state_id as usize].is_accept {
                        let end_ok = Self::end_ok_at(chars, k, ml);
                        if !self.states[state_id as usize].has_end_anchor || end_ok {
                            last = Some(k);
                        }
                    }
                    proof {
                        if good && self.states@.len() < MAX_STATES {
                            assert(before_len < MAX_STATES);
                            let nxt = sp.step(cur0, s[k_old as int]);
                            lemma_same_automaton(spm, sp, cur0, s[k_old as int]);
                            lemma_same_automaton(spm, sp, nxt, s[k_old as int]);
                            assert(cur == nxt);
                            assert(spm.step(cur0, s[k_old as int]) == nxt);
                            assert(spm.accepting(nxt) == sp.accepting(nxt));
                            assert(spm.end_anchor(nxt) == sp.end_anchor(nxt));
                            assert(spm.scan_first(cur0, s, k_old as int, opt_int(last_old)) == spm.scan_first(cur, s, k as int, opt_int(last)));
                        }
                    }
                },
                None => {
                    dead = true;
                    proof {
                        if good && self.states@.len() < MAX_STATES {
                            assert(sp.step(cur0, s[k_old as int]).is_empty());
                            lemma_same_automaton(spm, sp, cur0, s[k_old as int]);
                            assert(spm.step(cur0, s[k_old as int]) == sp.step(cur0, s[k_old as int]));
                            assert(spm.step(cur0, s[k_old as int]).is_empty());
                        }
                    }
                },
            }
        }
        assert(self.state_wf(self.states@[state_id as int]));
        if last.is_some() {
            return last;
        }
        if self.states[state_id as usize].has_end_anchor {
            let end_ok = Self::end_ok_at(chars, k, ml);
            if end_ok && self.states[state_id as usize].is_accept {
                last = Some(k);
            }
        }
        last
    }

    /// Shortest match starting at character `k0`; the result is its end (a character index).
    fn first_end_chars(&mut self, chars: &Vec<char>, k0: usize) -> (r: Option<usize>)
        requires
            old(self).wf(),
            k0 <= chars@.len(),
        ensures
            final(self).wf(),
            final(self).extends(old(self)),
            r matches Some(e) ==> k0 <= e <= chars@.len(),
            old(self).stable_for(chars@) && final(self).states@.len() < MAX_STATES ==> final(self).sound() && opt_int(r)
                == old(self).spec().match_first_end(chars@, k0 as int),
    {
        let ghost sp = self.spec();
        let ml = self.multi_line;
        let start_ok = Self::start_ok_at(chars, k0, ml);
        let start_idx = self.start as usize;
        assert(self.state_wf(self.states@[start_idx as int]));
        let mut last: Option<usize> = None;
        if self.states[start_idx].is_accept {
            if !self.anchored_start || start_ok {
                let end_ok = Self::end_ok_at(chars, k0, ml);
                if !self.anchored_end || end_ok {
                    last = Some(k0);
                }
            }
        }
        if self.states[start_idx].has_start_anchor && !start_ok {
            return None;
        }
        proof {
            assert(sp.ml == ml);
            assert((DfaSpec { ml: ml, ..sp }) == sp);
        }
        self.run_first(chars, k0, ml, last)
    }

    /// The character index whose byte offset is `start`.
    fn char_index(offs: &Vec<usize>, start: usize, s: Ghost<Seq<char>>) -> (r: usize)
        requires
            offsets_of(s@, offs@),
            is_boundary(s@, start as int),
        ensures
            r <= s@.len(),
            offs@[r as int] == start,
            r == char_index_of(s@, start as int),
    {
        let ghost kk = char_index_of(s@, start as int);
        let mut k: usize = 0;
        while offs[k] < start
            invariant
                offsets_of(s@, offs@),
                0 <= kk <= s@.len(),
                byte_offset(s@, kk) == start,
                k <= kk,
            decreases kk - k,
        {
            proof {
                if k == kk {
                    assert(offs@[k as int] == start);
                }
                assert(offs.len() == offs@.len());
            }
            k = k + 1;
        }
        proof {
            if k < kk {
                lemma_offset_strict(s@, k as int, kk);
            }
        }
        k
    }

    /// Find a match starting at byte offset `start`.
    pub fn find_at(&mut self, text: &str, start: usize) -> (r: Option<DfaMatch>)
        requires
            old(self).wf(),
            is_boundary(text@, start as int),
        ensures
            final(self).wf(),
            final(self).extends(old(self)),
            old(self).stable_for(text@) && final(self).num_states() < MAX_STATES ==> final(self).sound() && r
                == span_to_match(text@, char_index_of(text@, start as int), old(self).spec().match_end(text@, char_index_of(text@, start as int))),
    {
        let (chars, offs) = decode_text(text);
        let k0 = Self::char_index(&offs, start, Ghost(text@));
        match self.find_at_chars(&chars, k0) {
            Some(e) => Some(DfaMatch { start: offs[k0], end: offs[e] }),
            None => None,
        }
    }

    /// Find all non-overlapping matches, left to right.
    pub fn find_all(&mut self, text: &str) -> (r: Vec<DfaMatch>)
        requires
            old(self).wf(),
        ensures
            final(self).wf(),
            final(self).extends(old(self)),
            old(self).stable_for(text@) && final(self).num_states() < MAX_STATES ==> final(self).sound() && r@
                == spans_to_matches(text@, old(self).spec().all_from(text@, 0)),
    {
        let (chars, offs) = decode_text(text);
        let ghost sp = self.spec();
        let ghost s = text@;
        let ghost good = self.stable_for(text@);
        let ghost mut spans: Seq<(int, int)> = Seq::empty();
        let mut matches: Vec<DfaMatch> = Vec::new();
        let mut k: usize = 0;
        while k <= chars.len()
            invariant
                self.wf(),
                self.extends(old(self)),
                sp == old(self).spec(),
                s == text@,
                chars@ == s,
                offsets_of(s, offs@),
                k <= chars@.len() + 1,
                good == old(self).stable_for(s),
                good && self.states@.len() < MAX_STATES ==> self.stable_for(s) && spans + sp.all_from(s, k as int)
                    == sp.all_from(s, 0) && matches@ == spans_to_matches(s, spans),
            decreases chars@.len() + 1 - k,
        {
            let ghost k_old = k;
            let ghost before_len = self.states@.len();
            let ghost spans_old = spans;
            let ghost matches_old = matches@;
            proof {
                assert(offs.len() == offs@.len());
            }
            match self.find_at_chars(&chars, k) {
                Some(e) => {
                    let m = DfaMatch { start: offs[k], end: offs[e] };
                    matches.push(m);
                    proof {
                        if good && self.states@.len() < MAX_STATES {
                            spans = spans.push((k as int, e as int));
                            assert(m == DfaMatch { start: byte_offset(s, k as int) as usize, end: byte_offset(s, e as int) as usize });
                            assert(spans_to_matches(s, spans) =~= matches@) by {
                                assert(spans_to_matches(s, spans_old) == matches_old);
                            }
                            let nk: int = if k < e { e as int } else { k + 1 };
                            assert(sp.all_from(s, k as int) == seq![(k as int, e as int)] + sp.all_from(s, nk));
                            assert(spans + sp.all_from(s, nk) =~= spans_old + sp.all_from(s, k as int));
                        }
                    }
                    k = if e > k { e } else { k + 1 };
                },
                None => {
                    proof {
                        if good && self.states@.len() < MAX_STATES {
                            assert(sp.all_from(s, k as int) == sp.all_from(s, k + 1));
                        }
                    }
                    k = k + 1;
                },
            }
        }
        matches
    }

    /// The index of the state whose set is `nfa_states`, if any.
    fn find_state(&self, nfa_states: &Vec<ExtState>) -> (r: Option<usize>)
        requires
            self.wf(),
        ensures
            match r {
                Some(i) => i < self.states@.len() && self.states@[i as int].nfa_states@ == nfa_states@,
                None => forall|j: int| 0 <= j < self.states@.len() ==> (#[trigger] self.states@[j]).nfa_states@ != nfa_states@,
            },
    {
        let mut i: usize = 0;
        while i < self.states.len()
            invariant
                0 <= i <= self.states@.len(),
                forall|j: int| 0 <= j < i ==> (#[trigger] self.states@[j]).nfa_states@ != nfa_states@,
            decreases self.states@.len() - i,
        {
            if set_equal(&self.states[i].nfa_states, nfa_states) {
                return Some(i);
            }
            i = i + 1;
        }
        None
    }

    /// Accepting, start-anchor and end-anchor flags of a set.
    fn state_flags(&self, nfa_states: &Vec<ExtState>) -> (r: (bool, bool, bool))
        requires
            self.nfa.wf(),
            self.spec().valid_set(nfa_states@),
        ensures
            r.0 == self.spec().accepting(set_of(nfa_states@)),
            r.1 == self.spec().start_anchor(set_of(nfa_states@)),
            r.2 == self.spec().end_anchor(set_of(nfa_states@)),
    {
        let ghost sp = self.spec();
        let ghost st = set_of(nfa_states@);
        let mut is_accept = false;
        let mut has_start_anchor = false;
        let mut has_end_anchor = false;
        let mut k: usize = 0;
        while k < nfa_states.len()
            invariant
                0 <= k <= nfa_states@.len(),
                sp == self.spec(),
                st == set_of(nfa_states@),
                sp.valid_set(nfa_states@),
                is_accept ==> sp.accepting(st),
                has_start_anchor ==> sp.start_anchor(st),
                has_end_anchor ==> sp.end_anchor(st),
                !is_accept ==> forall|j: int| 0 <= j < k ==> !is_accept_state(sp.state_at(#[trigger] nfa_states@[j].state_id)),
                !has_start_anchor ==> forall|j: int| 0 <= j < k ==> !is_anchor_state(sp.state_at(#[trigger] nfa_states@[j].state_id), Anchor::Start),
                !has_end_anchor ==> forall|j: int| 0 <= j < k ==> !is_anchor_state(sp.state_at(#[trigger] nfa_states@[j].state_id), Anchor::End),
            decreases nfa_states@.len() - k,
        {
            let id = nfa_states[k].state_id;
            let ghost e = nfa_states@[k as int];
            assert(st.contains(e));
            match &self.nfa.states[id] {
                State::Accept => {
                    is_accept = true;
                },
                State::Anchor { kind: Anchor::Start, .. } => {
                    has_start_anchor = true;
                },
                State::Anchor { kind: Anchor::End, .. } => {
                    has_end_anchor = true;
                },
                _ => {},
            }
            k = k + 1;
        }
        proof {
            if sp.accepting(st) && !is_accept {
                let e = choose|e: ExtState| #[trigger] st.contains(e) && e.state_id < sp.nfa.states@.len() && is_accept_state(sp.state_at(e.state_id));
                let j = choose|j: int| 0 <= j < nfa_states@.len() && nfa_states@[j] == e;
                assert(!is_accept_state(sp.state_at(nfa_states@[j].state_id)));
            }
            if sp.start_anchor(st) && !has_start_anchor {
                let e = choose|e: ExtState| #[trigger] st.contains(e) && e.state_id < sp.nfa.states@.len() && is_anchor_state(sp.state_at(e.state_id), Anchor::Start);
                let j = choose|j: int| 0 <= j < nfa_states@.len() && nfa_states@[j] == e;
                assert(!is_anchor_state(sp.state_at(nfa_states@[j].state_id), Anchor::Start));
            }
            if sp.end_anchor(st) && !has_end_anchor {
                let e = choose|e: ExtState| #[trigger] st.contains(e) && e.state_id < sp.nfa.states@.len() && is_anchor_state(sp.state_at(e.state_id), Anchor::End);
                let j = choose|j: int| 0 <= j < nfa_states@.len() && nfa_states@[j] == e;
                assert(!is_anchor_state(sp.state_at(nfa_states@[j].state_id), Anchor::End));
            }
        }
        (is_accept, has_start_anchor, has_end_anchor)
    }

    /// The id of the DFA state for `nfa_states`, creating it when needed.
    /// Returns `TRANS_DEAD` only when the id space is exhausted.
    fn get_or_create_state(&mut self, nfa_states: Vec<ExtState>) -> (r: u32)
        requires
            old(self).wf(),
            sorted_set(nfa_states@),
            old(self).spec().valid_set(nfa_states@),
        ensures
            final(self).wf(),
            final(self).extends(old(self)),
            final(self).states@.len() <= old(self).states@.len() + 1,
            forall|i: int| 0 <= i < old(self).states@.len() ==> #[trigger] final(self).states@[i] == old(self).states@[i],
            r == TRANS_DEAD ==> final(self).states@.len() == MAX_STATES,
            r != TRANS_DEAD ==> r < final(self).states@.len() && final(self).states@[r as int].nfa_states@ == nfa_states@,
            old(self).sound() ==> final(self).sound(),
            final(self).keeps_known(old(self)),
    {
        if let Some(found) = self.find_state(&nfa_states) {
            return found as u32;
        }
        if self.states.len() >= MAX_STATES {
            return TRANS_DEAD;
        }
        let ghost sp = self.spec();
        let (is_accept, has_start_anchor, has_end_anchor) = self.state_flags(&nfa_states);
        let id = self.states.len() as u32;
        let ghost old_states = self.states@;
        let new_state = DfaState {
            nfa_states,
            is_accept,
            has_start_anchor,
            has_end_anchor,
            ascii_transitions: AsciiTransitions::new(),
            unicode_transitions: Vec::new(),
        };
        self.states.push(new_state);
        proof {
            assert(self.states@ == old_states.push(new_state));
            assert(self.spec() == sp);
            assert forall|j: int| 0 <= j < self.states@.len() implies #[trigger] self.state_wf(self.states@[j]) by {
                if j < old_states.len() {
                    assert(self.states@[j] == old_states[j]);
                    assert(old(self).state_wf(old_states[j]));
                }
            }
            assert forall|a: int, b: int| 0 <= a < b < self.states@.len() implies (#[trigger] self.states@[a]).nfa_states@
                != (#[trigger] self.states@[b]).nfa_states@ by {
                if b < old_states.len() {
                    assert(old_states[a].nfa_states@ != old_states[b].nfa_states@);
                }
            }
            if old(self).sound() {
                assert(self.state_set(self.start as int) == old(self).state_set(self.start as int));
                assert forall|i: int, b: int| 0 <= i < self.states@.len() && 0 <= b < 128 implies #[trigger] self.cached_ok(
                    i,
                    b as char,
                    self.states@[i].ascii_transitions.table@[b],
                ) by {
                    if i < old_states.len() {
                        assert(old(self).cached_ok(i, b as char, old_states[i].ascii_transitions.table@[b]));
                        let t = old_states[i].ascii_transitions.table@[b];
                        if t != TRANS_DEAD && t != TRANS_UNKNOWN {
                            assert(self.state_set(t as int) == old(self).state_set(t as int));
                        }
                        assert(self.state_set(i) == old(self).state_set(i));
                    }
                }
                assert forall|i: int, a: int| 0 <= i < self.states@.len() && 0 <= a < self.states@[i].unicode_transitions@.len()
                    implies #[trigger] self.cached_ok(i, self.states@[i].unicode_transitions@[a].0, self.states@[i].unicode_transitions@[a].1) by {
                    if i < old_states.len() {
                        let (c, t) = old_states[i].unicode_transitions@[a];
                        assert(old(self).cached_ok(i, c, t));
                        if t != TRANS_DEAD && t != TRANS_UNKNOWN {
                            assert(self.state_set(t as int) == old(self).state_set(t as int));
                        }
                        assert(self.state_set(i) == old(self).state_set(i));
                    }
                }
            }
        }
        id
    }

    /// Adds the epsilon closure of `root` to `result`.
    fn epsilon_closure(&self, root: usize, result: &mut Vec<ExtState>)
        requires
            self.nfa.wf(),
            root < self.nfa.states@.len(),
            sorted_set(old(result)@),
            self.spec().valid_set(old(result)@),
            self.spec().closed(set_of(old(result)@)),
        ensures
            sorted_set(final(result)@),
            self.spec().valid_set(final(result)@),
            self.spec().closed(set_of(final(result)@)),
            set_of(final(result)@) == set_of(old(result)@).union(self.spec().closure(root)),
    {
        let ghost sp = self.spec();
        let ghost old_set = set_of(result@);
        let mut stack: Vec<usize> = Vec::new();
        stack.push(root);
        proof {
            assert(stack@[0] == root);
            lemma_reach_refl(self.nfa, root);
            lemma_done_bounds(sp, set_of(result@));
        }
        while stack.len() > 0
            invariant
                sp == self.spec(),
                self.nfa.wf(),
                root < self.nfa.states@.len(),
                sorted_set(result@),
                sp.valid_set(result@),
                old_set.subset_of(set_of(result@)),
                set_of(result@).subset_of(old_set.union(sp.closure(root))),
                forall|k: int| 0 <= k < stack@.len() ==> (#[trigger] stack@[k]) < self.nfa.states@.len() && reach(self.nfa, root, stack@[k]),
                forall|e: ExtState, y: usize| set_of(result@).contains(e) && #[trigger] eps_edge(self.nfa, e.state_id, y)
                    ==> set_of(result@).contains(#[trigger] sp.norm(y)) || stack@.contains(y),
                set_of(result@).contains(sp.norm(root)) || stack@.contains(root),
                sp.done_ids(set_of(result@)).finite(),
                sp.done_ids(set_of(result@)).len() <= self.nfa.states@.len(),
            decreases self.nfa.states@.len() - sp.done_ids(set_of(result@)).len(), stack@.len(),
        {
            let ghost stack_before = stack@;
            let id = stack.pop().unwrap();
            assert(stack@ == stack_before.drop_last());
            assert(id == stack_before.last());
            assert(stack_before[stack_before.len() - 1] == id);
            let e = self.normalize(id);
            if !set_contains(result, e) {
                let ghost result_before = set_of(result@);
                let ghost rb_seq = result@;
                proof {
                    lemma_done_insert(sp, result_before, id);
                }
                set_insert(result, e);
                proof {
                    assert forall|i: int| 0 <= i < result@.len() implies (#[trigger] result@[i]).state_id < self.nfa.states@.len() by {
                        assert(set_of(result@).contains(result@[i]));
                        if result@[i] != e {
                            assert(result_before.contains(result@[i]));
                            let j = choose|j: int| 0 <= j < rb_seq.len() && rb_seq[j] == result@[i];
                        }
                    }
                }
                let ghost stack_mid = stack@;
                assert(crate::nfa::state_targets_in(self.nfa.states@[id as int], self.nfa.states@.len()));
                match &self.nfa.states[id] {
                    State::Epsilon { targets } => {
                        let mut j: usize = 0;
                        while j < targets.len()
                            invariant
                                0 <= j <= targets@.len(),
                                stack@ == stack_mid + targets@.subrange(0, j as int),
                                forall|k: int| 0 <= k < targets@.len() ==> (#[trigger] targets@[k]) < self.nfa.states@.len(),
                            decreases targets@.len() - j,
                        {
                            stack.push(targets[j]);
                            assert(stack@ =~= stack_mid + targets@.subrange(0, j + 1));
                            j = j + 1;
                        }
                        assert(stack@ =~= stack_mid + targets@);
                    },
                    State::Split { branches } => {
                        let mut j: usize = 0;
                        while j < branches.len()
                            invariant
                                0 <= j <= branches@.len(),
                                stack@ == stack_mid + branches@.subrange(0, j as int),
                                forall|k: int| 0 <= k < branches@.len() ==> (#[trigger] branches@[k]) < self.nfa.states@.len(),
                            decreases branches@.len() - j,
                        {
                            stack.push(branches[j]);
                            assert(stack@ =~= stack_mid + branches@.subrange(0, j + 1));
                            j = j + 1;
                        }
                        assert(stack@ =~= stack_mid + branches@);
                    },
                    State::CaptureStart { next, .. } => {
                        stack.push(*next);
                    },
                    State::CaptureEnd { next, .. } => {
                        stack.push(*next);
                    },
                    State::Anchor { next, .. } => {
                        stack.push(*next);
                    },
                    _ => {},
                }
                proof {
                    let succ = eps_succs(self.nfa.states@[id as int]);
                    assert(stack@ == stack_mid + succ);
                    assert(self.nfa.states@.len() > 0);
                    assert(crate::nfa::state_targets_in(self.nfa.states@[id as int], self.nfa.states@.len()));
                    assert forall|k: int| 0 <= k < stack@.len() implies (#[trigger] stack@[k]) < self.nfa.states@.len()
                        && reach(self.nfa, root, stack@[k]) by {
                        if k < stack_mid.len() {
                            assert(stack@[k] == stack_before[k]);
                        } else {
                            let i = k - stack_mid.len();
                            assert(stack@[k] == succ[i]);
                            lemma_reach_step(self.nfa, root, id, i);
                        }
                    }
                    assert forall|e2: ExtState, y: usize| set_of(result@).contains(e2) && #[trigger] eps_edge(self.nfa, e2.state_id, y)
                        implies set_of(result@).contains(#[trigger] sp.norm(y)) || stack@.contains(y) by {
                        if e2 == e {
                            let i = choose|i: int| 0 <= i < succ.len() && succ[i] == y;
                            assert(stack@[stack_mid.len() + i] == y);
                        } else {
                            assert(result_before.contains(e2));
                            if !result_before.contains(sp.norm(y)) {
                                assert(stack_before.contains(y));
                                if y != id {
                                    let i = choose|i: int| 0 <= i < stack_before.len() && stack_before[i] == y;
                                    assert(i < stack_before.len() - 1);
                                    assert(stack@[i] == y);
                                }
                            }
                        }
                    }
                    if !result_before.contains(sp.norm(root)) && root != id {
                        let i = choose|i: int| 0 <= i < stack_before.len() && stack_before[i] == root;
                        assert(i < stack_before.len() - 1);
                        assert(stack@[i] == root);
                    }
                    assert(reach(self.nfa, root, id) && e == sp.norm(id));
                    assert(sp.closure(root).contains(e));
                    lemma_done_bounds(sp, set_of(result@));
                }
            } else {
                proof {
                    assert forall|e2: ExtState, y: usize| set_of(result@).contains(e2) && #[trigger] eps_edge(self.nfa, e2.state_id, y)
                        implies set_of(result@).contains(#[trigger] sp.norm(y)) || stack@.contains(y) by {
                        if !set_of(result@).contains(sp.norm(y)) {
                            assert(stack_before.contains(y));
                            let i = choose|i: int| 0 <= i < stack_before.len() && stack_before[i] == y;
                            assert(y != id);
                            assert(i < stack_before.len() - 1);
                            assert(stack@[i] == y);
                        }
                    }
                    if !set_of(result@).contains(sp.norm(root)) {
                        let i = choose|i: int| 0 <= i < stack_before.len() && stack_before[i] == root;
                        assert(i < stack_before.len() - 1);
                        assert(stack@[i] == root);
                    }
                    assert forall|k: int| 0 <= k < stack@.len() implies (#[trigger] stack@[k]) < self.nfa.states@.len()
                        && reach(self.nfa, root, stack@[k]) by {
                        assert(stack@[k] == stack_before[k]);
                    }
                }
            }
        }
        proof {
            let member = |x: usize| set_of(result@).contains(sp.norm(x));
            assert forall|x: usize, y: usize| member(x) && x < self.nfa.states@.len() && #[trigger] eps_succs(self.nfa.states@[x as int]).contains(y)
                implies #[trigger] member(y) by {
                assert(eps_edge(self.nfa, sp.norm(x).state_id, y));
            }
            assert forall|x: ExtState| sp.closure(root).contains(x) implies set_of(result@).contains(x) by {
                let id = choose|id: usize| #[trigger] reach(self.nfa, root, id) && x == sp.norm(id);
                lemma_closed_contains_reach(self.nfa, root, id, member);
            }
            assert(set_of(result@) =~= old_set.union(sp.closure(root)));
        }
    }
}

impl DfaSpec {
    /// Matches found left to right from character `k`, as (start, end) character indices;
    /// after a match the search resumes at its end (one character later for an empty match).
    pub open spec fn all_from(self, s: Seq<char>, k: int) -> Seq<(int, int)>
        decreases s.len() + 1 - k,
    {
        if k < 0 || k > s.len() {
            Seq::empty()
        } else {
            match self.match_end(s, k) {
                Some(e) => seq![(k, e)] + self.all_from(s, if k < e <= s.len() { e } else { k + 1 }),
                None => self.all_from(s, k + 1),
            }
        }
    }

    /// The same automaton with anchors evaluated in single-line mode.
    pub open spec fn single_line(self) -> DfaSpec {
        DfaSpec { ml: false, ..self }
    }

    /// The longest match from character 0 as computed by `longest_end`:
    /// single-line anchors, and an empty match at 0 only for patterns
    /// without an end anchor.
    pub open spec fn longest_end_spec(self, s: Seq<char>) -> Option<int> {
        let sl = self.single_line();
        let s0 = self.closure(self.nfa.start);
        let last0 = if self.accepting(s0) && !self.anchored_end {
            Some(0int)
        } else {
            None
        };
        sl.scan(s0, s, 0, last0)
    }
}

/// The transition structure does not depend on how anchors are evaluated.
pub proof fn lemma_same_automaton(a: DfaSpec, b: DfaSpec, st: Set<ExtState>, c: char)
    requires
        a.nfa == b.nfa,
        a.lits == b.lits,
        a.ci == b.ci,
        a.exact == b.exact,
    ensures
        a.step(st, c) == b.step(st, c),
        a.accepting(st) == b.accepting(st),
        a.start_anchor(st) == b.start_anchor(st),
        a.end_anchor(st) == b.end_anchor(st),
{
    assert forall|root: usize| #[trigger] a.closure(root) == b.closure(root) by {
        assert(a.closure(root) =~= b.closure(root));
    }
    assert forall|e: ExtState| #[trigger] a.consume(e, c) == b.consume(e, c) by {
        if e.state_id < a.nfa.states@.len() {
            match a.state_at(e.state_id) {
                State::Char { class, next } => {
                    assert(a.closure(next) == b.closure(next));
                },
                State::FuzzyLiteral { next, .. } => {
                    assert(a.closure(next) == b.closure(next));
                },
                _ => {},
            }
        }
    }
    assert(a.step(st, c) =~= b.step(st, c)) by {
        assert forall|x: ExtState| a.step(st, c).contains(x) <==> b.step(st, c).contains(x) by {
            if a.step(st, c).contains(x) {
                let e = choose|e: ExtState| st.contains(e) && #[trigger] a.consume(e, c).contains(x);
                assert(b.consume(e, c).contains(x));
            }
            if b.step(st, c).contains(x) {
                let e = choose|e: ExtState| st.contains(e) && #[trigger] b.consume(e, c).contains(x);
                assert(a.consume(e, c).contains(x));
            }
        }
    }
}

/// Character-index spans converted to byte-offset matches.
pub open spec fn spans_to_matches(s: Seq<char>, spans: Seq<(int, int)>) -> Seq<DfaMatch> {
    spans.map_values(|p: (int, int)| DfaMatch { start: byte_offset(s, p.0) as usize, end: byte_offset(s, p.1) as usize })
}

/// The character index whose byte offset is `b`.
pub open spec fn char_index_of(s: Seq<char>, b: int) -> int {
    choose|k: int| 0 <= k <= s.len() && #[trigger] byte_offset(s, k) == b
}

pub open spec fn span_to_match(s: Seq<char>, k0: int, e: Option<int>) -> Option<DfaMatch> {
    match e {
        Some(e) => Some(DfaMatch { start: byte_offset(s, k0) as usize, end: byte_offset(s, e) as usize }),
        None => None,
    }
}

pub open spec fn bitmap_ok(bm: Option<AsciiClassBitmap>, st: State) -> bool {
    match st {
        State::Char { class, .. } => match bm {
            Some(b) => b.wf() && forall|x: int| 0 <= x < 128 ==> #[trigger] b.bits@[x] == class.spec_matches(x as char),
            None => false,
        },
        _ => true,
    }
}


/// The edit limits allow no edit at all.
pub open spec fn limits_exact(l: Option<FuzzyLimits>) -> bool {
    match l {
        None => true,
        Some(l) => match l.edits {
            Some(e) => e == 0,
            None => opt_zero(l.insertions) && opt_zero(l.deletions) && opt_zero(l.substitutions) && opt_zero(
                l.swaps,
            ),
        },
    }
}

pub open spec fn opt_zero(o: Option<u8>) -> bool {
    match o {
        Some(v) => v == 0,
        None => true,
    }
}

/// A state the DFA can simulate; `nlits` is the number of literal texts, if any were given.
pub open spec fn state_dfa_ok(st: State, nlits: Option<nat>) -> bool {
    match st {
        State::Accept => true,
        State::Epsilon { .. } => true,
        State::ResetMatchStart { .. } => true,
        State::Char { .. } => true,
        State::Split { .. } => true,
        State::CaptureStart { .. } => true,
        State::CaptureEnd { .. } => true,
        State::Anchor { kind, .. } => kind == Anchor::Start || kind == Anchor::End,
        State::FuzzyLiteral { pattern_index, limits, .. } => limits_exact(limits) && match nlits {
            Some(n) => pattern_index < n,
            None => false,
        },
        _ => false,
    }
}

/// Every state of `nfa` can be simulated by the DFA.
pub open spec fn dfa_compatible(nfa: Nfa, nlits: Option<nat>) -> bool {
    forall|i: int| 0 <= i < nfa.states@.len() ==> #[trigger] state_dfa_ok(nfa.states@[i], nlits)
}

pub open spec fn lit_count(t: Option<&Vec<String>>) -> Option<nat> {
    match t {
        Some(v) => Some(v@.len()),
        None => None,
    }
}

/// The characters of each literal text.
pub open spec fn lit_seqs(t: Option<&Vec<String>>) -> Seq<Seq<char>> {
    match t {
        Some(v) => v@.map_values(|s: String| s@),
        None => Seq::empty(),
    }
}

pub open spec fn has_literal_state(nfa: Nfa) -> bool {
    exists|i: int| 0 <= i < nfa.states@.len() && (#[trigger] nfa.states@[i]) is FuzzyLiteral
}

pub open spec fn has_end_anchor_state(nfa: Nfa) -> bool {
    exists|i: int| 0 <= i < nfa.states@.len() && is_anchor_state(#[trigger] nfa.states@[i], Anchor::End)
}

impl Dfa {
    fn limits_are_exact(limits: &Option<FuzzyLimits>) -> (r: bool)
        ensures
            r == limits_exact(*limits),
    {
        match limits {
            None => true,
            Some(l) => {
                let max_edits: u8 = match l.edits {
                    Some(e) => e,
                    None => {
                        let i: u8 = match l.insertions { Some(v) => v, None => 0 };
                        let d: u8 = match l.deletions { Some(v) => v, None => 0 };
                        let s: u8 = match l.substitutions { Some(v) => v, None => 0 };
                        let t: u8 = match l.swaps { Some(v) => v, None => 0 };
                        i.saturating_add(d).saturating_add(s).saturating_add(t)
                    },
                };
                max_edits == 0
            },
        }
    }

    /// Whether every NFA state can be simulated by the DFA.
    fn is_dfa_compatible(nfa: &Nfa, literal_texts: Option<&Vec<String>>) -> (r: bool)
        ensures
            r == dfa_compatible(*nfa, lit_count(literal_texts)),
    {
        let mut i: usize = 0;
        while i < nfa.states.len()
            invariant
                0 <= i <= nfa.states@.len(),
                forall|j: int| 0 <= j < i ==> #[trigger] state_dfa_ok(nfa.states@[j], lit_count(literal_texts)),
            decreases nfa.states@.len() - i,
        {
            let ok = match &nfa.states[i] {
                State::Accept => true,
                State::Epsilon { .. } => true,
                State::ResetMatchStart { .. } => true,
                State::Char { .. } => true,
                State::Split { .. } => true,
                State::CaptureStart { .. } => true,
                State::CaptureEnd { .. } => true,
                State::Anchor { kind, .. } => match kind {
                    Anchor::Start => true,
                    Anchor::End => true,
                    _ => false,
                },
                State::FuzzyLiteral { limits, pattern_index, .. } => {
                    Self::limits_are_exact(limits) && match literal_texts {
                        Some(v) => *pattern_index < v.len(),
                        None => false,
                    }
                },
                _ => false,
            };
            assert(ok == state_dfa_ok(nfa.states@[i as int], lit_count(literal_texts)));
            if !ok {
                return false;
            }
            i = i + 1;
        }
        true
    }

    /// The literal spelled by an NFA that is a chain of single ASCII
    /// characters ending in the accepting state.
    fn detect_simple_literal(nfa: &Nfa) -> (r: Option<Vec<u8>>)
        requires
            nfa.wf(),
        ensures
            r matches Some(l) ==> forall|i: int| 0 <= i < l@.len() ==> l@[i] < 128,
            r matches Some(l) ==> Some(l@) == chain_literal(*nfa, nfa.start as int, nfa.states@.len()),
            r is None ==> nfa.states@.len() > 20 || chain_literal(*nfa, nfa.start as int, nfa.states@.len()) is None,
    {
        let n = nfa.states.len();
        if n > 20 {
            return None;
        }
        let mut literal: Vec<u8> = Vec::new();
        let mut current = nfa.start;
        let mut visited: Vec<bool> = Vec::new();
        let mut k: usize = 0;
        while k < n
            invariant
                0 <= k <= n,
                visited@.len() == k,
                forall|x: int| 0 <= x < k ==> !visited@[x],
                crate::prefilter::count_false(visited@) == k,
            decreases n - k,
        {
            proof {
                assert(visited@.push(false).drop_last() =~= visited@);
            }
            visited.push(false);
            k = k + 1;
        }
        let ghost mut path: Seq<int> = Seq::empty();
        let ghost whole = chain_literal(*nfa, nfa.start as int, n as nat);
        while current < n && !visited[current]
            invariant
                nfa.wf(),
                n == nfa.states@.len(),
                visited@.len() == n,
                forall|i: int| 0 <= i < literal@.len() ==> literal@[i] < 128,
                crate::prefilter::count_false(visited@) + path.len() == n,
                forall|x: int| 0 <= x < n ==> (#[trigger] visited@[x] <==> path.contains(x)),
                forall|q: int| 0 <= q < path.len() ==> 0 <= #[trigger] path[q] < n,
                forall|q: int| 0 <= q < path.len() - 1 ==> chain_next(*nfa, #[trigger] path[q]) == Some((path[q + 1]) as usize),
                path.len() > 0 ==> chain_next(*nfa, path.last()) == Some(current),
                path.len() == 0 ==> current == nfa.start,
                whole == chain_literal(*nfa, nfa.start as int, n as nat),
                whole == match chain_literal(*nfa, current as int, crate::prefilter::count_false(visited@)) {
                    Some(l) => Some(literal@ + l),
                    None => None,
                },
            decreases crate::prefilter::count_false(visited@),
        {
            let ghost fuel = crate::prefilter::count_false(visited@);
            proof {
                crate::prefilter::lemma_count_false_mark(visited@, current as int);
                assert(fuel >= 1);
                assert(!path.contains(current as int));
            }
            let ghost path0 = path;
            visited.set(current, true);
            proof {
                path = path.push(current as int);
                assert forall|x: int| 0 <= x < n implies (#[trigger] visited@[x] <==> path.contains(x)) by {
                    if x == current {
                        assert(path[path.len() - 1] == x);
                    } else {
                        if path0.contains(x) {
                            let w = choose|w: int| 0 <= w < path0.len() && path0[w] == x;
                            assert(path[w] == x);
                        }
                        if path.contains(x) {
                            let w = choose|w: int| 0 <= w < path.len() && path[w] == x;
                            assert(w < path0.len());
                            assert(path0[w] == x);
                        }
                    }
                }
            }
            assert(crate::nfa::state_targets_in(nfa.states@[current as int], nfa.states@.len()));
            match &nfa.states[current] {
                State::Accept => {
                    proof {
                        assert(chain_literal(*nfa, current as int, fuel) == Some(Seq::<u8>::empty()));
                        assert(literal@ + Seq::<u8>::empty() =~= literal@);
                    }
                    return Some(literal);
                },
                State::Char { class, next } => {
                    if class.named.len() != 0 || class.ranges.len() != 1 || class.chars.len() != 1 {
                        return None;
                    }
                    let (lo, hi) = class.ranges[0];
                    if lo != hi || (lo as u32) >= 128 {
                        return None;
                    }
                    let ghost before = literal@;
                    let lu = lo as u32;
                    assert(lu as u8 == lu) by (bit_vector)
                        requires
                            lu < 128,
                    ;
                    literal.push(lu as u8);
                    proof {
                        assert(chain_next(*nfa, current as int) == Some(*next));
                        let rest = chain_literal(*nfa, *next as int, (fuel - 1) as nat);
                        if rest is Some {
                            assert(before + (seq![lu as u8] + rest->0) =~= literal@ + rest->0);
                        }
                    }
                    current = *next;
                },
                State::Epsilon { targets } => {
                    if targets.len() == 1 {
                        current = targets[0];
                    } else {
                        return None;
                    }
                },
                _ => {
                    return None;
                },
            }
        }
        proof {
            let fuel = crate::prefilter::count_false(visited@);
            if current < n {
                assert(visited@[current as int]);
                let j = choose|j: int| 0 <= j < path.len() && path[j] == current;
                lemma_chain_cycle(*nfa, path, j, j, fuel);
            }
        }
        None
    }
}

/// The ASCII byte a character class stands for when it is a single ASCII
/// character written as a one-character range.
pub open spec fn simple_char(c: CharClass) -> Option<u8> {
    if c.named@.len() == 0 && c.ranges@.len() == 1 && c.chars@.len() == 1 && c.ranges@[0].0 == c.ranges@[0].1
        && (c.ranges@[0].0 as u32) < 128 {
        Some(c.ranges@[0].0 as u32 as u8)
    } else {
        None
    }
}

/// The state after `cur` in a chain: the target of a single-ASCII-character
/// state or of an epsilon state with one target.
pub open spec fn chain_next(nfa: Nfa, cur: int) -> Option<usize> {
    match nfa.states@[cur] {
        State::Char { class, next } => if simple_char(class) is Some {
            Some(next)
        } else {
            None
        },
        State::Epsilon { targets } => if targets@.len() == 1 {
            Some(targets@[0])
        } else {
            None
        },
        _ => None,
    }
}

/// The literal spelled by the chain from state `cur` to the accepting state,
/// visiting at most `fuel` states.
pub open spec fn chain_literal(nfa: Nfa, cur: int, fuel: nat) -> Option<Seq<u8>>
    decreases fuel,
{
    if fuel == 0 || cur < 0 || cur >= nfa.states@.len() {
        None
    } else if nfa.states@[cur] is Accept {
        Some(Seq::empty())
    } else {
        match chain_next(nfa, cur) {
            Some(nx) => match chain_literal(nfa, nx as int, (fuel - 1) as nat) {
                Some(l) => Some(
                    match nfa.states@[cur] {
                        State::Char { class, next: _ } => seq![simple_char(class)->0] + l,
                        _ => l,
                    },
                ),
                None => None,
            },
            None => None,
        }
    }
}

/// A chain that comes back to one of its states never reaches the
/// accepting state.
proof fn lemma_chain_cycle(nfa: Nfa, path: Seq<int>, j: int, q: int, fuel: nat)
    requires
        nfa.states@.len() <= usize::MAX,
        0 <= j <= q < path.len(),
        forall|x: int| 0 <= x < path.len() - 1 ==> chain_next(nfa, #[trigger] path[x]) == Some((path[x + 1]) as usize),
        forall|x: int| 0 <= x < path.len() ==> 0 <= #[trigger] path[x] < nfa.states@.len(),
        chain_next(nfa, path.last()) == Some(path[j] as usize),
    ensures
        chain_literal(nfa, path[q], fuel) is None,
    decreases fuel,
{
    if fuel > 0 {
        let nq = if q + 1 < path.len() {
            q + 1
        } else {
            j
        };
        lemma_chain_cycle(nfa, path, j, nq, (fuel - 1) as nat);
        assert(chain_next(nfa, path[q]) == Some(path[nq] as usize));
        assert((path[nq] as usize) as int == path[nq]);
        assert(!(nfa.states@[path[q]] is Accept));
    }
}

impl Dfa {
    /// Builds a DFA from an NFA.  `literal_texts` gives the text of each
    /// literal state, by index.  Returns `None` when the NFA holds a state
    /// the DFA cannot simulate: a fuzzy literal that allows edits or has no
    /// text, a word-boundary anchor, lookaround, backreferences and the like.
    pub fn from_nfa(nfa: Nfa, literal_texts: Option<&Vec<String>>, case_insensitive: bool, multi_line: bool) -> (r:
        Option<Dfa>)
        requires
            nfa.wf(),
        ensures
            r is Some <==> dfa_compatible(nfa, lit_count(literal_texts)),
            r matches Some(d) ==> {
                &&& d.wf()
                &&& d.sound()
                &&& d.num_states() == 1
                &&& d.start_state() == 0
                &&& d.start_row().len() == 128
                &&& forall|b: int| 0 <= b < 128 ==> #[trigger] d.start_row()[b] == TRANS_UNKNOWN
                &&& d.spec().nfa == nfa
                &&& d.spec().lits == lit_seqs(literal_texts)
                &&& d.spec().ci == case_insensitive
                &&& d.spec().ml == multi_line
                &&& d.spec().exact == !has_literal_state(nfa)
                &&& d.spec().anchored_start == d.spec().start_anchor(d.spec().closure(nfa.start))
                &&& d.spec().anchored_end == has_end_anchor_state(nfa)
                &&& prefilter_is(d.search_prefilter(), nfa, lit_seqs(literal_texts), case_insensitive)
            },
    {
        if !Self::is_dfa_compatible(&nfa, literal_texts) {
            return None;
        }
        let mut texts: Vec<String> = Vec::new();
        let mut chars: Vec<Vec<char>> = Vec::new();
        match literal_texts {
            Some(v) => {
                let mut i: usize = 0;
                while i < v.len()
                    invariant
                        0 <= i <= v@.len(),
                        texts@.len() == i,
                        chars@.len() == i,
                        forall|j: int| 0 <= j < i ==> (#[trigger] texts@[j])@ == v@[j]@,
                        forall|j: int| 0 <= j < i ==> (#[trigger] chars@[j])@ == v@[j]@,
                    decreases v@.len() - i,
                {
                    let t = v[i].clone();
                    let (cs, _offs) = decode_text(v[i].as_str());
                    texts.push(t);
                    chars.push(cs);
                    i = i + 1;
                }
                assert forall|j: int| 0 <= j < chars@.len() implies chars@.map_values(|c: Vec<char>| c@)[j]
                    == lit_seqs(literal_texts)[j] by {
                    assert(chars@[j]@ == v@[j]@);
                }
                assert(chars@.map_values(|c: Vec<char>| c@) =~= lit_seqs(literal_texts));
                assert(text_views(texts@) =~= lit_seqs(literal_texts));
            },
            None => {
                assert(chars@.map_values(|c: Vec<char>| c@) =~= lit_seqs(literal_texts));
                assert(text_views(texts@) =~= lit_seqs(literal_texts));
            },
        }
        let n = nfa.states.len();
        let mut bitmaps: Vec<Option<AsciiClassBitmap>> = Vec::new();
        let mut exact_mode = true;
        let mut anchored_end = false;
        let mut i: usize = 0;
        while i < n
            invariant
                0 <= i <= n,
                n == nfa.states@.len(),
                bitmaps@.len() == i,
                forall|id: int| 0 <= id < i ==> #[trigger] bitmap_ok(bitmaps@[id], nfa.states@[id]),
                exact_mode == !(exists|j: int| 0 <= j < i && (#[trigger] nfa.states@[j]) is FuzzyLiteral),
                anchored_end == (exists|j: int| 0 <= j < i && is_anchor_state(#[trigger] nfa.states@[j], Anchor::End)),
            decreases n - i,
        {
            match &nfa.states[i] {
                State::Char { class, .. } => {
                    bitmaps.push(Some(AsciiClassBitmap::from_hir_class(class)));
                },
                State::FuzzyLiteral { .. } => {
                    bitmaps.push(None);
                    exact_mode = false;
                },
                State::Anchor { kind: Anchor::End, .. } => {
                    bitmaps.push(None);
                    anchored_end = true;
                },
                _ => {
                    bitmaps.push(None);
                },
            }
            proof {
                assert(bitmap_ok(bitmaps@[i as int], nfa.states@[i as int]));
            }
            i = i + 1;
        }
        let prefilter = extract_prefilter(&nfa, &texts, case_insensitive);
        let class_type = if exact_mode {
            nfa.get_char_class_type()
        } else {
            None
        };
        let class_plus = exact_mode && literal_texts.is_none() && class_type.is_some() && nfa.is_char_class_plus() && n
            <= 10;
        let fast_literal = if exact_mode && literal_texts.is_none() && !class_plus {
            Self::detect_simple_literal(&nfa)
        } else {
            None
        };
        let root = nfa.start;
        let mut dfa = Dfa {
            nfa,
            literal_texts: texts,
            literal_chars: chars,
            states: Vec::new(),
            start: 0,
            anchored_start: false,
            anchored_end,
            case_insensitive,
            multi_line,
            char_class_bitmaps: bitmaps,
            prefilter,
            exact_mode,
            fast_path_char_class_plus: class_plus,
            fast_path_char_class_type: class_type,
            fast_path_literal: fast_literal,
        };
        let mut start_set: Vec<ExtState> = Vec::new();
        proof {
            assert(set_of(start_set@) =~= Set::<ExtState>::empty());
        }
        dfa.epsilon_closure(root, &mut start_set);
        let (is_accept, has_start_anchor, has_end_anchor) = dfa.state_flags(&start_set);
        let ghost sp0 = dfa.spec();
        dfa.anchored_start = has_start_anchor;
        proof {
            lemma_same_automaton(sp0, dfa.spec(), set_of(start_set@), 'a');
            assert(sp0.closure(root) =~= dfa.spec().closure(root));
        }
        let first = DfaState {
            nfa_states: start_set,
            is_accept,
            has_start_anchor,
            has_end_anchor,
            ascii_transitions: AsciiTransitions::new(),
            unicode_transitions: Vec::new(),
        };
        dfa.states.push(first);
        proof {
            let sp = dfa.spec();
            assert(set_of(dfa.states@[0].nfa_states@) == sp.closure(root)) by {
                assert(set_of(start_set@) =~= Set::<ExtState>::empty().union(sp0.closure(root)));
            }
            assert(dfa.state_wf(dfa.states@[0]));
            assert(dfa.state_set(0) == sp.closure(sp.nfa.start));
        }
        Some(dfa)
    }
}


/// Byte classification used by the `C+` fast path.
pub open spec fn class_byte(kind: ClassKind, b: u8) -> bool {
    let digit = 48 <= b <= 57;
    let word = digit || (65 <= b <= 90) || (97 <= b <= 122) || b == 95;
    let space = b == 32 || b == 9 || b == 10 || b == 12 || b == 13;
    match kind {
        ClassKind::Digit => digit,
        ClassKind::Word => word,
        ClassKind::Whitespace => space,
        ClassKind::NotDigit => !digit,
        ClassKind::NotWord => !word,
        ClassKind::NotWhitespace => !space,
    }
}

/// `r` is the first maximal run of class bytes of `h`, or `None` when `h` has none.
pub open spec fn class_run_result(kind: ClassKind, h: Seq<u8>, r: Option<DfaMatch>) -> bool {
    match r {
        Some(m) => m.start < m.end <= h.len() && (forall|j: int| 0 <= j < m.start ==> !class_byte(kind, #[trigger] h[j]))
            && (forall|j: int| m.start <= j < m.end ==> class_byte(kind, #[trigger] h[j])) && (m.end == h.len()
            || !class_byte(kind, h[m.end as int])),
        None => forall|j: int| 0 <= j < h.len() ==> !class_byte(kind, #[trigger] h[j]),
    }
}

/// `r` is the first occurrence of `lit` in `h` (at 0 for the empty literal).
pub open spec fn literal_result(h: Seq<u8>, lit: Seq<u8>, r: Option<DfaMatch>) -> bool {
    match r {
        Some(m) => occurs_at(h, lit, m.start as int) && m.end == m.start + lit.len() && forall|j: int|
            0 <= j < m.start ==> !#[trigger] occurs_at(h, lit, j),
        None => forall|j: int| 0 <= j ==> !#[trigger] occurs_at(h, lit, j),
    }
}

/// `r` is the last occurrence of `lit` in `h` (at the end for the empty literal).
/// The last position before `pos` holding byte `b`.
pub open spec fn last_byte_before(h: Seq<u8>, b: u8, pos: int) -> Option<int>
    decreases pos,
{
    if pos <= 0 {
        None
    } else if h[pos - 1] == b {
        Some(pos - 1)
    } else {
        last_byte_before(h, b, pos - 1)
    }
}

/// The right-to-left literal scan from `pos`: the last occurrence of the
/// literal's first byte before `pos` is tried; on a mismatch the scan goes
/// on from there while at least a literal's length of text is left before it.
pub open spec fn literal_rev_scan(h: Seq<u8>, l: Seq<u8>, pos: int) -> Option<int>
    decreases pos,
{
    if pos <= 0 || pos < l.len() || l.len() == 0 {
        None
    } else {
        match last_byte_before(h, l[0], pos) {
            None => None,
            Some(st) => if occurs_at(h, l, st) {
                Some(st)
            } else if 0 <= st < pos {
                literal_rev_scan(h, l, st)
            } else {
                None
            },
        }
    }
}

/// The match of [`literal_rev_scan`] over the whole text.
pub open spec fn literal_rev_match(h: Seq<u8>, l: Seq<u8>) -> Option<DfaMatch> {
    match literal_rev_scan(h, l, h.len() as int) {
        Some(st) => Some(DfaMatch { start: st as usize, end: (st + l.len()) as usize }),
        None => None,
    }
}

proof fn lemma_last_byte_before(h: Seq<u8>, b: u8, pos: int, f: Option<int>)
    requires
        0 <= pos <= h.len(),
        f matches Some(i) ==> 0 <= i < pos && h[i] == b && forall|j: int| i < j < pos ==> #[trigger] h[j] != b,
        f is None ==> forall|j: int| 0 <= j < pos ==> #[trigger] h[j] != b,
    ensures
        last_byte_before(h, b, pos) == f,
    decreases pos,
{
    if pos > 0 {
        if f != Some(pos - 1) {
            assert(h[pos - 1] != b);
            lemma_last_byte_before(h, b, pos - 1, f);
        }
    }
}

pub open spec fn literal_rev_result(h: Seq<u8>, lit: Seq<u8>, r: Option<DfaMatch>) -> bool {
    match r {
        Some(m) => occurs_at(h, lit, m.start as int) && m.end == m.start + lit.len() && forall|j: int|
            m.start < j ==> !#[trigger] occurs_at(h, lit, j),
        None => forall|j: int| 0 <= j ==> !#[trigger] occurs_at(h, lit, j),
    }
}

pub open spec fn pair_to_match(s: Seq<char>, p: Option<(int, int)>) -> Option<DfaMatch> {
    match p {
        Some((a, b)) => Some(DfaMatch { start: byte_offset(s, a) as usize, end: byte_offset(s, b) as usize }),
        None => None,
    }
}

/// Every position.
pub open spec fn any_pos() -> spec_fn(int) -> bool {
    |j: int| true
}

/// Character positions that follow a line break (and position 0).
pub open spec fn line_start(s: Seq<char>) -> spec_fn(int) -> bool {
    |j: int| j == 0 || (0 < j < s.len() && s[j - 1] == '\n')
}

/// Character positions whose byte offset the prefilter admits.
pub open spec fn pf_candidate(pf: DfaPrefilter, s: Seq<char>) -> spec_fn(int) -> bool {
    |j: int| pf_admits(pf, encode_utf8(s), byte_offset(s, j))
}

impl DfaSpec {
    /// The first position `j >= k` admitted by `adm` at which a match starts,
    /// with the end of the longest match there.
    pub open spec fn first_match_where(self, s: Seq<char>, adm: spec_fn(int) -> bool, k: int) -> Option<(int, int)>
        decreases s.len() + 1 - k,
    {
        if k < 0 || k > s.len() {
            None
        } else if adm(k) && self.match_end(s, k) is Some {
            Some((k, self.match_end(s, k)->0))
        } else {
            self.first_match_where(s, adm, k + 1)
        }
    }

    /// Whether the start closure accepts the empty string.
    pub open spec fn accepts_empty(self) -> bool {
        self.accepting(self.closure(self.nfa.start))
    }

    /// The result of the prefilter-driven search.
    pub open spec fn prefilter_search(self, pf: DfaPrefilter, s: Seq<char>) -> Option<DfaMatch> {
        if self.accepts_empty() && s.len() == 0 {
            Some(DfaMatch { start: 0, end: 0 })
        } else if self.accepts_empty() && !self.anchored_end {
            match self.match_end(s, 0) {
                Some(e) => Some(DfaMatch { start: 0, end: byte_offset(s, e) as usize }),
                None => Some(DfaMatch { start: 0, end: 0 }),
            }
        } else {
            match pf {
                DfaPrefilter::Disabled => pair_to_match(s, self.first_match_where(s, any_pos(), 0)),
                DfaPrefilter::CharClassRanges(_) => pair_to_match(s, self.first_match_where(s, pf_candidate(pf, s), 0)),
                _ => match self.first_match_where(s, pf_candidate(pf, s), 0) {
                    Some(p) => pair_to_match(s, Some(p)),
                    None => if self.accepts_empty() {
                        Some(DfaMatch { start: 0, end: 0 })
                    } else {
                        None
                    },
                },
            }
        }
    }

    /// The result of `find` once the fast paths are ruled out.
    pub open spec fn dfa_search(self, pf: DfaPrefilter, s: Seq<char>) -> Option<DfaMatch> {
        if self.anchored_start && !self.ml {
            span_to_match(s, 0, self.match_end(s, 0))
        } else if self.anchored_start && self.ml {
            pair_to_match(s, self.first_match_where(s, line_start(s), 0))
        } else {
            self.prefilter_search(pf, s)
        }
    }
}

/// Positions that `adm` rejects or where no match starts can be skipped.
pub proof fn lemma_first_match_skip(sp: DfaSpec, s: Seq<char>, adm: spec_fn(int) -> bool, a: int, b: int)
    requires
        0 <= a <= b <= s.len() + 1,
        forall|j: int| a <= j < b ==> !(adm(j) && #[trigger] sp.match_end(s, j) is Some),
    ensures
        sp.first_match_where(s, adm, a) == sp.first_match_where(s, adm, b),
    decreases b - a,
{
    if a < b {
        assert(!(adm(a) && sp.match_end(s, a) is Some));
        lemma_first_match_skip(sp, s, adm, a + 1, b);
    }
}

fn class_byte_exec(kind: ClassKind, b: u8) -> (r: bool)
    ensures
        r == class_byte(kind, b),
{
    let digit = 48 <= b && b <= 57;
    let word = digit || (65 <= b && b <= 90) || (97 <= b && b <= 122) || b == 95;
    let space = b == 32 || b == 9 || b == 10 || b == 12 || b == 13;
    match kind {
        ClassKind::Digit => digit,
        ClassKind::Word => word,
        ClassKind::Whitespace => space,
        ClassKind::NotDigit => !digit,
        ClassKind::NotWord => !word,
        ClassKind::NotWhitespace => !space,
    }
}

/// `lit` occurs in `bytes` at `start`.
fn bytes_occur_at(bytes: &[u8], start: usize, lit: &[u8]) -> (r: bool)
    ensures
        r == occurs_at(bytes@, lit@, start as int),
{
    let blen = bytes.len();
    if start > blen || lit.len() > blen - start {
        return false;
    }
    let mut i: usize = 0;
    while i < lit.len()
        invariant
            blen == bytes@.len(),
            0 <= i <= lit@.len(),
            start + lit@.len() <= bytes@.len(),
            forall|j: int| 0 <= j < i ==> bytes@[start + j] == lit@[j],
        decreases lit@.len() - i,
    {
        assert(start + i < bytes@.len());
        if bytes[start + i] != lit[i] {
            assert(bytes@.subrange(start as int, start + lit@.len())[i as int] != lit@[i as int]);
            return false;
        }
        i = i + 1;
    }
    assert(bytes@.subrange(start as int, start + lit@.len()) =~= lit@);
    true
}

impl Dfa {
    /// Fast path for `\d+`, `\w+`, `\s+` and their negations: the first
    /// maximal run of bytes of the class.
    fn find_char_class_plus(kind: ClassKind, bytes: &[u8]) -> (r: Option<DfaMatch>)
        ensures
            class_run_result(kind, bytes@, r),
    {
        let len = bytes.len();
        if len == 0 {
            return None;
        }
        let mut i: usize = 0;
        while i < len
            invariant
                0 <= i <= len,
                len == bytes@.len(),
                forall|j: int| 0 <= j < i ==> !class_byte(kind, #[trigger] bytes@[j]),
            decreases len - i,
        {
            let start = i;
            while i < len && class_byte_exec(kind, bytes[i])
                invariant
                    start <= i <= len,
                    len == bytes@.len(),
                    forall|j: int| start <= j < i ==> class_byte(kind, #[trigger] bytes@[j]),
                decreases len - i,
            {
                i = i + 1;
            }
            if i > start {
                return Some(DfaMatch { start, end: i });
            }
            i = i + 1;
        }
        None
    }

    /// Fast path for a plain literal: its first occurrence.
    fn find_literal(bytes: &[u8], lit: &[u8]) -> (r: Option<DfaMatch>)
        ensures
            literal_result(bytes@, lit@, r),
    {
        let lit_len = lit.len();
        if lit_len == 0 {
            assert(occurs_at(bytes@, lit@, 0)) by {
                assert(bytes@.subrange(0, 0) =~= lit@);
            }
            return Some(DfaMatch { start: 0, end: 0 });
        }
        if bytes.len() >= 32 && lit_len >= 4 && lit_len <= 64 {
            let teddy = TeddySearch::new(lit);
            return match teddy.find_first(bytes) {
                Some(pos) => Some(DfaMatch { start: pos, end: pos + lit_len }),
                None => None,
            };
        }
        let len = bytes.len();
        if len < lit_len {
            return None;
        }
        let first_byte = lit[0];
        let mut i: usize = 0;
        while i <= len - lit_len
            invariant
                len == bytes@.len(),
                lit_len == lit@.len(),
                0 < lit_len <= len,
                first_byte == lit@[0],
                i <= len,
                forall|j: int| 0 <= j < i ==> !#[trigger] occurs_at(bytes@, lit@, j),
            decreases len - i,
        {
            let rest = &bytes[i..len];
            match find_byte(first_byte, rest) {
                Some(pos) => {
                    let start = i + pos;
                    proof {
                        assert forall|j: int| i <= j < start implies !#[trigger] occurs_at(bytes@, lit@, j) by {
                            assert(rest@[j - i] != first_byte);
                            assert(rest@[j - i] == bytes@[j]);
                            if occurs_at(bytes@, lit@, j) {
                                assert(bytes@.subrange(j, j + lit@.len())[0] == bytes@[j]);
                            }
                        }
                    }
                    if start > len - lit_len {
                        proof {
                            assert forall|j: int| 0 <= j implies !#[trigger] occurs_at(bytes@, lit@, j) by {}
                        }
                        return None;
                    }
                    if bytes_occur_at(bytes, start, lit) {
                        return Some(DfaMatch { start, end: start + lit_len });
                    }
                    i = start + 1;
                },
                None => {
                    proof {
                        assert forall|j: int| 0 <= j implies !#[trigger] occurs_at(bytes@, lit@, j) by {
                            if i <= j < len && occurs_at(bytes@, lit@, j) {
                                assert(rest@[j - i] == bytes@[j]);
                                assert(bytes@.subrange(j, j + lit@.len())[0] == bytes@[j]);
                            }
                        }
                    }
                    return None;
                },
            }
        }
        None
    }
}


fn copy_bytes(v: &Vec<u8>) -> (r: Vec<u8>)
    ensures
        r@ == v@,
{
    let mut r: Vec<u8> = Vec::new();
    let mut i: usize = 0;
    while i < v.len()
        invariant
            0 <= i <= v@.len(),
            r@ == v@.subrange(0, i as int),
        decreases v@.len() - i,
    {
        r.push(v[i]);
        assert(r@ =~= v@.subrange(0, i + 1));
        i = i + 1;
    }
    assert(r@ =~= v@);
    r
}

fn copy_pairs(v: &Vec<(u8, u8)>) -> (r: Vec<(u8, u8)>)
    ensures
        r@ == v@,
{
    let mut r: Vec<(u8, u8)> = Vec::new();
    let mut i: usize = 0;
    while i < v.len()
        invariant
            0 <= i <= v@.len(),
            r@ == v@.subrange(0, i as int),
        decreases v@.len() - i,
    {
        r.push(v[i]);
        assert(r@ =~= v@.subrange(0, i + 1));
        i = i + 1;
    }
    assert(r@ =~= v@);
    r
}

/// Two prefilters of the same kind over the same bytes.
pub open spec fn pf_same(a: DfaPrefilter, b: DfaPrefilter) -> bool {
    match (a, b) {
        (DfaPrefilter::Disabled, DfaPrefilter::Disabled) => true,
        (DfaPrefilter::SingleByte(x), DfaPrefilter::SingleByte(y)) => x == y,
        (DfaPrefilter::TwoBytes(x1, x2), DfaPrefilter::TwoBytes(y1, y2)) => x1 == y1 && x2 == y2,
        (DfaPrefilter::ThreeBytes(x1, x2, x3), DfaPrefilter::ThreeBytes(y1, y2, y3)) => x1 == y1 && x2 == y2 && x3 == y3,
        (DfaPrefilter::ManyBytes(x), DfaPrefilter::ManyBytes(y)) => x@ == y@,
        (DfaPrefilter::Literal(x), DfaPrefilter::Literal(y)) => x@ == y@,
        (DfaPrefilter::CharClassRanges(x), DfaPrefilter::CharClassRanges(y)) => x@ == y@,
        _ => false,
    }
}

proof fn lemma_pf_same(a: DfaPrefilter, b: DfaPrefilter, s: Seq<char>)
    requires
        pf_same(a, b),
    ensures
        pf_candidate(a, s) == pf_candidate(b, s),
        pf_wf(a) == pf_wf(b),
        (a is Disabled) == (b is Disabled),
        (a is CharClassRanges) == (b is CharClassRanges),
{
    assert(pf_candidate(a, s) =~= pf_candidate(b, s));
}

fn copy_prefilter(pf: &DfaPrefilter) -> (r: DfaPrefilter)
    ensures
        pf_same(r, *pf),
{
    match pf {
        DfaPrefilter::Disabled => DfaPrefilter::Disabled,
        DfaPrefilter::SingleByte(a) => DfaPrefilter::SingleByte(*a),
        DfaPrefilter::TwoBytes(a, b) => DfaPrefilter::TwoBytes(*a, *b),
        DfaPrefilter::ThreeBytes(a, b, c) => DfaPrefilter::ThreeBytes(*a, *b, *c),
        DfaPrefilter::ManyBytes(v) => DfaPrefilter::ManyBytes(copy_bytes(v)),
        DfaPrefilter::Literal(v) => DfaPrefilter::Literal(copy_bytes(v)),
        DfaPrefilter::CharClassRanges(v) => DfaPrefilter::CharClassRanges(copy_pairs(v)),
    }
}

impl Dfa {
    /// Whether the start state accepts the empty string.
    fn start_accepts(&self) -> (r: bool)
        requires
            self.wf(),
        ensures
            self.sound() ==> r == self.spec().accepts_empty(),
    {
        assert(self.state_wf(self.states@[self.start as int]));
        self.states[self.start as usize].is_accept
    }

    /// Tries every character position, then the end of the text.
    fn find_linear(&mut self, chars: &Vec<char>, offs: &Vec<usize>) -> (r: Option<DfaMatch>)
        requires
            old(self).wf(),
            offsets_of(chars@, offs@),
        ensures
            final(self).wf(),
            final(self).extends(old(self)),
            old(self).stable_for(chars@) && final(self).states@.len() < MAX_STATES ==> final(self).sound() && r
                == pair_to_match(chars@, old(self).spec().first_match_where(chars@, any_pos(), 0)),
    {
        let ghost sp = self.spec();
        let ghost s = chars@;
        let ghost good = self.stable_for(s);
        let mut k: usize = 0;
        while k <= chars.len()
            invariant
                self.wf(),
                self.extends(old(self)),
                sp == old(self).spec(),
                s == chars@,
                offsets_of(s, offs@),
                k <= chars@.len() + 1,
                good == old(self).stable_for(s),
                good && self.states@.len() < MAX_STATES ==> self.stable_for(s) && sp.first_match_where(s, any_pos(), 0)
                    == sp.first_match_where(s, any_pos(), k as int),
            decreases chars@.len() + 1 - k,
        {
            proof {
                assert(offs.len() == offs@.len());
            }
            match self.find_at_chars(chars, k) {
                Some(e) => {
                    return Some(DfaMatch { start: offs[k], end: offs[e] });
                },
                None => {
                    k = k + 1;
                },
            }
        }
        None
    }

    /// Start-anchored search in multi-line mode: position 0, then each
    /// position that follows a line break.
    fn find_multiline_anchored(&mut self, bytes: &[u8], chars: &Vec<char>, offs: &Vec<usize>) -> (r: Option<DfaMatch>)
        requires
            old(self).wf(),
            offsets_of(chars@, offs@),
            bytes@ == encode_utf8(chars@),
        ensures
            final(self).wf(),
            final(self).extends(old(self)),
            old(self).stable_for(chars@) && final(self).states@.len() < MAX_STATES ==> final(self).sound() && r
                == pair_to_match(chars@, old(self).spec().first_match_where(chars@, line_start(chars@), 0)),
    {
        let ghost sp = self.spec();
        let ghost s = chars@;
        let ghost adm = line_start(s);
        let ghost good = self.stable_for(s);
        let len = bytes.len();
        proof {
            lemma_offset_bounds(s, s.len() as int);
            assert(offs.len() == offs@.len());
        }
        if let Some(e) = self.find_at_chars(chars, 0) {
            return Some(DfaMatch { start: offs[0], end: offs[e] });
        }
        let mut offset: usize = 0;
        let mut k: usize = 0;
        loop
            invariant
                self.wf(),
                self.extends(old(self)),
                sp == old(self).spec(),
                s == chars@,
                adm == line_start(s),
                offsets_of(s, offs@),
                bytes@ == encode_utf8(s),
                len == bytes@.len(),
                offs@[s.len() as int] == len,
                offset <= len,
                k <= s.len(),
                offs@[k as int] >= offset,
                good == old(self).stable_for(s),
                good && self.states@.len() < MAX_STATES ==> self.stable_for(s) && sp.first_match_where(s, adm, 0)
                    == sp.first_match_where(s, adm, k + 1),
            decreases len + 1 - offset,
        {
            let rest = &bytes[offset..len];
            match find_byte(10, rest) {
                None => {
                    proof {
                        if good && self.states@.len() < MAX_STATES {
                            assert forall|j: int| k + 1 <= j < s.len() + 1 implies !(adm(j) && #[trigger] sp.match_end(s, j) is Some) by {
                                if adm(j) && j > 0 && j < s.len() {
                                    let c = j - 1;
                                    lemma_byte_at_offset(s, c);
                                    lemma_newline_byte(s[c]);
                                    if c > k {
                                        lemma_offset_strict(s, k as int, c);
                                    }
                                    assert(rest@[offs@[c] - offset] == bytes@[offs@[c] as int]);
                                }
                            }
                            lemma_first_match_skip(sp, s, adm, k + 1, s.len() + 1 as int);
                        }
                    }
                    return None;
                },
                Some(pos) => {
                    let q = offset + pos;
                    let ghost k_old = k;
                    while k < chars.len() && offs[k] < q
                        invariant
                            k_old <= k <= s.len(),
                            s == chars@,
                            offsets_of(s, offs@),
                            offs@[k_old as int] >= offset,
                            offset <= q < len,
                            forall|c: int| k_old <= c < k ==> (#[trigger] offs@[c]) < q,
                        decreases s.len() - k,
                    {
                        k = k + 1;
                    }
                    proof {
                        if k == s.len() {
                            assert(offs@[k as int] == len);
                        }
                        assert forall|c: int| k_old <= c < k implies #[trigger] s[c] != '\n' by {
                            lemma_byte_at_offset(s, c);
                            lemma_newline_byte(s[c]);
                            if c > k_old {
                                lemma_offset_strict(s, k_old as int, c);
                            }
                            assert(rest@[offs@[c] - offset] == bytes@[offs@[c] as int]);
                        }
                        if good && self.states@.len() < MAX_STATES {
                            assert forall|j: int| k_old + 1 <= j < k + 1 implies !(adm(j) && #[trigger] sp.match_end(s, j) is Some) by {
                                assert(s[j - 1] != '\n');
                            }
                            lemma_first_match_skip(sp, s, adm, k_old + 1, k + 1);
                        }
                    }
                    if offs[k] == q {
                        if chars[k] == '\n' {
                            proof {
                                lemma_offset_step(s, k as int);
                                assert(crate::text::char_width('\n') == 1) by {
                                    assert(encode_scalar('\n' as u32).len() == 1);
                                }
                                lemma_offset_bounds(s, k + 1);
                            }
                            let start = q + 1;
                            if start < len {
                                proof {
                                    assert(offs@[k + 1] == start);
                                }
                                if let Some(e) = self.find_at_chars(chars, k + 1) {
                                    return Some(DfaMatch { start: offs[k + 1], end: offs[e] });
                                }
                            } else {
                                proof {
                                    if k + 1 < s.len() {
                                        lemma_offset_strict(s, k + 1, s.len() as int);
                                    }
                                }
                            }
                        }
                        proof {
                            if k + 1 <= s.len() {
                                lemma_offset_strict(s, k as int, k + 1);
                            }
                            if good && self.states@.len() < MAX_STATES {
                                lemma_first_match_skip(sp, s, adm, k + 1, k + 2);
                            }
                        }
                        k = k + 1;
                        offset = q + 1;
                    } else {
                        offset = q + 1;
                    }
                },
            }
        }
    }
}


impl Dfa {
    /// The first match at a position the prefilter admits.
    fn find_with_prefilter(&mut self, bytes: &[u8], chars: &Vec<char>, offs: &Vec<usize>) -> (r: Option<DfaMatch>)
        requires
            old(self).wf(),
            offsets_of(chars@, offs@),
            bytes@ == encode_utf8(chars@),
        ensures
            final(self).wf(),
            final(self).extends(old(self)),
            old(self).stable_for(chars@) && final(self).states@.len() < MAX_STATES ==> final(self).sound() && r
                == old(self).spec().prefilter_search(old(self).search_prefilter(), chars@),
    {
        let ghost sp = self.spec();
        let ghost s = chars@;
        let ghost good = self.stable_for(s);
        let len = bytes.len();
        proof {
            lemma_offset_bounds(s, s.len() as int);
            lemma_offset_bounds(s, 0);
            assert(offs.len() == offs@.len());
        }
        let accepts_empty = self.start_accepts();
        if accepts_empty && len == 0 {
            return Some(DfaMatch { start: 0, end: 0 });
        }
        if accepts_empty && !self.anchored_end {
            return match self.find_at_chars(chars, 0) {
                Some(e) => Some(DfaMatch { start: 0, end: offs[e] }),
                None => Some(DfaMatch { start: 0, end: 0 }),
            };
        }
        let pf = copy_prefilter(&self.prefilter);
        let ghost adm = pf_candidate(pf, s);
        let ghost pfo = old(self).search_prefilter();
        proof {
            lemma_pf_same(pf, self.prefilter, s);
            assert(self.prefilter == pfo);
            if good {
                assert(accepts_empty == sp.accepts_empty());
            }
            if len == 0 {
                if s.len() > 0 {
                    lemma_offset_strict(s, 0, s.len() as int);
                }
                assert(s.len() == 0);
            }
        }
        if let DfaPrefilter::Disabled = pf {
            return self.find_linear(chars, offs);
        }
        let ranges_kind = if let DfaPrefilter::CharClassRanges(_) = pf {
            true
        } else {
            false
        };
        let mut offset: usize = 0;
        let mut k: usize = 0;
        loop
            invariant
                self.wf(),
                self.extends(old(self)),
                sp == old(self).spec(),
                s == chars@,
                adm == pf_candidate(pf, s),
                adm == pf_candidate(pfo, s),
                pfo == old(self).search_prefilter(),
                ranges_kind == (pfo is CharClassRanges),
                !(pfo is Disabled),
                good ==> accepts_empty == sp.accepts_empty(),
                !(accepts_empty && s.len() == 0),
                !(accepts_empty && !sp.anchored_end),
                pf_wf(pf),
                !(pf is Disabled),
                offsets_of(s, offs@),
                bytes@ == encode_utf8(s),
                len == bytes@.len(),
                offs@[s.len() as int] == len,
                offset <= len,
                k <= s.len(),
                offs@[k as int] >= offset,
                good == old(self).stable_for(s),
                good && self.states@.len() < MAX_STATES ==> self.stable_for(s) && sp.first_match_where(s, adm, 0)
                    == sp.first_match_where(s, adm, k as int),
            ensures
                self.wf(),
                self.extends(old(self)),
                good && self.states@.len() < MAX_STATES ==> self.stable_for(s) && sp.first_match_where(s, adm, 0) is None,
            decreases len + 1 - offset,
        {
            match next_candidate(&pf, bytes, offset) {
                None => {
                    proof {
                        if good && self.states@.len() < MAX_STATES {
                            assert forall|j: int| k <= j < s.len() + 1 implies !(adm(j) && #[trigger] sp.match_end(s, j) is Some) by {
                                if j > k {
                                    lemma_offset_strict(s, k as int, j);
                                }
                                assert(!pf_admits(pf, bytes@, offs@[j] as int));
                            }
                            lemma_first_match_skip(sp, s, adm, k as int, s.len() + 1 as int);
                        }
                    }
                    break;
                },
                Some(p) => {
                    let ghost k_old = k;
                    while k < chars.len() && offs[k] < p
                        invariant
                            k_old <= k <= s.len(),
                            s == chars@,
                            offsets_of(s, offs@),
                            offs@[k_old as int] >= offset,
                            offset <= p < len,
                            forall|c: int| k_old <= c < k ==> (#[trigger] offs@[c]) < p,
                        decreases s.len() - k,
                    {
                        k = k + 1;
                    }
                    proof {
                        if good && self.states@.len() < MAX_STATES {
                            assert forall|j: int| k_old <= j < k implies !(adm(j) && #[trigger] sp.match_end(s, j) is Some) by {
                                if j > k_old {
                                    lemma_offset_strict(s, k_old as int, j);
                                }
                                assert(!pf_admits(pf, bytes@, offs@[j] as int));
                            }
                            lemma_first_match_skip(sp, s, adm, k_old as int, k as int);
                        }
                    }
                    if offs[k] == p {
                        proof {
                            assert(k < s.len());
                        }
                        if let Some(e) = self.find_at_chars(chars, k) {
                            proof {
                                if good && self.states@.len() < MAX_STATES {
                                    assert(adm(k as int));
                                    assert(sp.match_end(s, k as int) == Some(e as int));
                                    assert(sp.first_match_where(s, adm, k as int) == Some((k as int, e as int)));
                                }
                            }
                            return Some(DfaMatch { start: offs[k], end: offs[e] });
                        }
                        proof {
                            lemma_offset_strict(s, k as int, k + 1);
                            if good && self.states@.len() < MAX_STATES {
                                lemma_first_match_skip(sp, s, adm, k as int, k + 1);
                            }
                        }
                        k = k + 1;
                    }
                    offset = p + 1;
                },
            }
        }
        if !ranges_kind && accepts_empty {
            Some(DfaMatch { start: 0, end: 0 })
        } else {
            None
        }
    }
}


impl Dfa {
    /// Finds the first match in `text`.
    ///
    /// The `C+` and plain-literal fast paths work on bytes; otherwise the
    /// automaton is run from the candidate start positions: position 0 for a
    /// start-anchored pattern (and, in multi-line mode, every position after a
    /// line break), else the positions the prefilter admits.
    pub fn find(&mut self, text: &str) -> (r: Option<DfaMatch>)
        requires
            old(self).wf(),
        ensures
            final(self).wf(),
            final(self).extends(old(self)),
            old(self).class_plus_kind() matches Some(kind) ==> class_run_result(kind, encode_utf8(text@), r),
            old(self).class_plus_kind() is None ==> (old(self).literal_fast() matches Some(l) ==> literal_result(
                encode_utf8(text@),
                l,
                r,
            )),
            old(self).class_plus_kind() is None && old(self).literal_fast() is None && old(self).stable_for(text@)
                && final(self).num_states() < MAX_STATES ==> final(self).sound() && r == old(self).spec().dfa_search(
                old(self).search_prefilter(),
                text@,
            ),
    {
        if self.fast_path_char_class_plus {
            let kind = match self.fast_path_char_class_type {
                Some(k) => k,
                None => ClassKind::Word,
            };
            return Self::find_char_class_plus(kind, text.as_bytes());
        }
        if let Some(lit) = &self.fast_path_literal {
            return Self::find_literal(text.as_bytes(), lit.as_slice());
        }
        let (chars, offs) = decode_text(text);
        let bytes = text.as_bytes();
        proof {
            lemma_offset_bounds(text@, 0);
        }
        if self.anchored_start && !self.multi_line {
            match self.find_at_chars(&chars, 0) {
                Some(e) => Some(DfaMatch { start: offs[0], end: offs[e] }),
                None => None,
            }
        } else if self.anchored_start && self.multi_line {
            self.find_multiline_anchored(bytes, &chars, &offs)
        } else {
            self.find_with_prefilter(bytes, &chars, &offs)
        }
    }

    /// What [`Dfa::find`] may report for `s` when it leaves the automaton as
    /// `post`: the fast paths' results, and otherwise, while the automaton
    /// stays sound on `s`, the leftmost-longest match.
    pub open spec fn find_outcome(self, post: Dfa, s: Seq<char>, m: Option<DfaMatch>) -> bool {
        &&& self.class_plus_kind() matches Some(kind) ==> class_run_result(kind, encode_utf8(s), m)
        &&& self.class_plus_kind() is None ==> (self.literal_fast() matches Some(l) ==> literal_result(
            encode_utf8(s),
            l,
            m,
        ))
        &&& self.class_plus_kind() is None && self.literal_fast() is None && self.stable_for(s) && post.num_states()
            < MAX_STATES ==> m == self.spec().dfa_search(self.search_prefilter(), s)
    }

    /// The end of the shortest match: the match [`Dfa::find`] reports gives
    /// the start, and the end is the first position after it at which the
    /// automaton accepts (on the fast paths, the end of that match).
    pub fn first_end(&mut self, text: &str) -> (r: Option<usize>)
        requires
            old(self).wf(),
        ensures
            final(self).wf(),
            final(self).extends(old(self)),
            exists|m: Option<DfaMatch>|
                #[trigger] old(self).find_outcome(*final(self), text@, m) && (r is None <==> m is None) && (m matches Some(
                    mm,
                ) ==> (is_boundary(text@, mm.start as int) && old(self).class_plus_kind() is None
                    && old(self).literal_fast() is None && old(self).stable_for(text@) && final(self).num_states()
                    < MAX_STATES ==> (old(self).spec().match_first_end(text@, char_index_of(text@, mm.start as int))
                    matches Some(e) ==> r == Some(byte_offset(text@, e) as usize)))),
    {
        let ghost pre = *self;
        let m = self.find(text);
        let ghost mid = *self;
        let r = match m {
            None => None,
            Some(mm) => {
                let (chars, offs) = decode_text(text);
                match Self::index_of_offset(&offs, mm.start, Ghost(text@)) {
                    Some(k) => {
                        let e = self.first_end_chars(&chars, k);
                        match e {
                            Some(e) => Some(offs[e]),
                            None => Some(mm.end),
                        }
                    },
                    None => Some(mm.end),
                }
            },
        };
        proof {
            assert(pre.find_outcome(*self, text@, m)) by {
                if pre.class_plus_kind() is None && pre.literal_fast() is None && pre.stable_for(text@) && self.num_states()
                    < MAX_STATES {
                    assert(mid.num_states() <= self.num_states());
                }
            }
        }
        r
    }

    /// The character index whose byte offset is `b`, if some character of
    /// `s` starts there (or `b` is the end).
    fn index_of_offset(offs: &Vec<usize>, b: usize, s: Ghost<Seq<char>>) -> (r: Option<usize>)
        requires
            offsets_of(s@, offs@),
        ensures
            r matches Some(k) ==> k <= s@.len() && offs@[k as int] == b,
            is_boundary(s@, b as int) ==> r == Some(char_index_of(s@, b as int) as usize),
    {
        let mut k: usize = 0;
        while k < offs.len()
            invariant
                offsets_of(s@, offs@),
                k <= offs@.len(),
                forall|j: int| 0 <= j < k ==> offs@[j] != b,
            decreases offs@.len() - k,
        {
            if offs[k] == b {
                proof {
                    if is_boundary(s@, b as int) {
                        let kk = char_index_of(s@, b as int);
                        assert(0 <= kk <= s@.len() && byte_offset(s@, kk) == b);
                        if kk < k {
                            assert(offs@[kk] == b);
                        } else if kk > k {
                            lemma_offset_strict(s@, k as int, kk);
                        }
                    }
                }
                return Some(k);
            }
            k = k + 1;
        }
        proof {
            if is_boundary(s@, b as int) {
                let kk = char_index_of(s@, b as int);
                assert(offs@[kk] == b);
            }
        }
        None
    }

    /// The first `n` non-overlapping matches, left to right.
    pub fn find_n(&mut self, text: &str, n: usize) -> (r: Vec<DfaMatch>)
        requires
            old(self).wf(),
        ensures
            final(self).wf(),
            final(self).extends(old(self)),
            old(self).stable_for(text@) && final(self).num_states() < MAX_STATES ==> final(self).sound() && r@
                == spans_to_matches(text@, first_n(old(self).spec().all_from(text@, 0), n as int)),
    {
        let ghost sp = self.spec();
        let ghost s = text@;
        let ghost good = self.stable_for(text@);
        let mut matches: Vec<DfaMatch> = Vec::new();
        if n == 0 {
            proof {
                assert(spans_to_matches(s, first_n(sp.all_from(s, 0), 0)) =~= matches@);
            }
            return matches;
        }
        let (chars, offs) = decode_text(text);
        let ghost mut spans: Seq<(int, int)> = Seq::empty();
        let mut k: usize = 0;
        while k <= chars.len() && matches.len() < n
            invariant
                self.wf(),
                self.extends(old(self)),
                sp == old(self).spec(),
                s == text@,
                chars@ == s,
                offsets_of(s, offs@),
                k <= chars@.len() + 1,
                matches@.len() <= n,
                good == old(self).stable_for(s),
                good && self.states@.len() < MAX_STATES ==> self.stable_for(s) && spans + sp.all_from(s, k as int)
                    == sp.all_from(s, 0) && matches@ == spans_to_matches(s, spans) && spans.len() == matches@.len(),
            decreases chars@.len() + 1 - k,
        {
            let ghost spans_old = spans;
            let ghost matches_old = matches@;
            proof {
                assert(offs.len() == offs@.len());
            }
            match self.find_at_chars(&chars, k) {
                Some(e) => {
                    let m = DfaMatch { start: offs[k], end: offs[e] };
                    matches.push(m);
                    proof {
                        if good && self.states@.len() < MAX_STATES {
                            spans = spans.push((k as int, e as int));
                            assert(spans_to_matches(s, spans) =~= matches@) by {
                                assert(spans_to_matches(s, spans_old) == matches_old);
                            }
                            let nk: int = if k < e { e as int } else { k + 1 };
                            assert(sp.all_from(s, k as int) == seq![(k as int, e as int)] + sp.all_from(s, nk));
                            assert(spans + sp.all_from(s, nk) =~= spans_old + sp.all_from(s, k as int));
                        }
                    }
                    k = if e > k { e } else { k + 1 };
                },
                None => {
                    proof {
                        if good && self.states@.len() < MAX_STATES {
                            assert(sp.all_from(s, k as int) == sp.all_from(s, k + 1));
                        }
                    }
                    k = k + 1;
                },
            }
        }
        proof {
            if good && self.states@.len() < MAX_STATES {
                let all = sp.all_from(s, 0);
                if k > chars.len() {
                    assert(sp.all_from(s, k as int) =~= Seq::<(int, int)>::empty());
                    assert(spans =~= all);
                    if n < all.len() {
                        assert(matches@.len() <= n);
                    }
                } else {
                    assert(matches@.len() == n);
                    assert(all.take(n as int) =~= spans);
                }
            }
        }
        matches
    }
}

/// The end of a match, if any.
pub open spec fn match_end_of(m: Option<DfaMatch>) -> Option<usize> {
    match m {
        Some(m) => Some(m.end),
        None => None,
    }
}

/// The first `n` elements of `v` (all of `v` when it is shorter).
pub open spec fn first_n<T>(v: Seq<T>, n: int) -> Seq<T> {
    if n >= v.len() {
        v
    } else {
        v.take(n)
    }
}

/// The matches `find_n` reports are the first `n` of those `find_all`
/// reports, in the same order.
pub proof fn lemma_find_n_prefix_of_find_all(sp: DfaSpec, s: Seq<char>, n: int)
    requires
        0 <= n,
    ensures
        ({
            let all = spans_to_matches(s, sp.all_from(s, 0));
            let some = spans_to_matches(s, first_n(sp.all_from(s, 0), n));
            &&& some.len() == (if n < all.len() {
                n
            } else {
                all.len() as int
            })
            &&& forall|i: int| 0 <= i < some.len() ==> #[trigger] some[i] == all[i]
        }),
{
}

/// Each match `find_all` reports from character `k` on is the match
/// `find_at` finds at its start, and each starts after the one before.
pub proof fn lemma_find_all_spans_are_find_at(sp: DfaSpec, s: Seq<char>, k: int)
    requires
        0 <= k,
    ensures
        forall|i: int|
            0 <= i < sp.all_from(s, k).len() ==> k <= (#[trigger] sp.all_from(s, k)[i]).0 <= s.len() && sp.match_end(
                s,
                sp.all_from(s, k)[i].0,
            ) == Some(sp.all_from(s, k)[i].1),
        forall|i: int|
            0 < i < sp.all_from(s, k).len() ==> (#[trigger] sp.all_from(s, k)[i]).0 > sp.all_from(s, k)[i - 1].0,
    decreases s.len() + 1 - k,
{
    if k <= s.len() {
        match sp.match_end(s, k) {
            Some(e) => {
                let k2 = if k < e <= s.len() {
                    e
                } else {
                    k + 1
                };
                lemma_find_all_spans_are_find_at(sp, s, k2);
                let rest = sp.all_from(s, k2);
                assert(sp.all_from(s, k) == seq![(k, e)] + rest);
                assert forall|i: int| 0 < i < sp.all_from(s, k).len() implies (#[trigger] sp.all_from(s, k)[i]).0
                    > sp.all_from(s, k)[i - 1].0 by {
                    assert(sp.all_from(s, k)[i] == rest[i - 1]);
                    if i > 1 {
                        assert(sp.all_from(s, k)[i - 1] == rest[i - 2]);
                    }
                }
            },
            None => {
                lemma_find_all_spans_are_find_at(sp, s, k + 1);
            },
        }
    }
}

/// The character index of byte offset 0 is 0.
pub proof fn lemma_char_index_of_zero(s: Seq<char>)
    ensures
        char_index_of(s, 0) == 0,
{
    lemma_offset_bounds(s, 0);
    assert(byte_offset(s, 0) == 0);
    let k = char_index_of(s, 0);
    if k > 0 {
        lemma_offset_strict(s, 0, k);
    }
}

/// In single-line mode and without an end anchor, `longest_end` gives the
/// end of the match that `find_at` finds at offset 0.
pub proof fn lemma_longest_end_is_find_at_start(sp: DfaSpec, s: Seq<char>)
    requires
        !sp.ml,
        !sp.anchored_end,
    ensures
        sp.longest_end_spec(s) == sp.match_end(s, char_index_of(s, 0)),
{
    lemma_char_index_of_zero(s);
    assert(sp.single_line() == sp);
}

/// The first position from `k` on that `adm` admits and where a match
/// starts is what `first_match_where` finds, with the longest match there.
pub proof fn lemma_first_match_where_least(sp: DfaSpec, s: Seq<char>, adm: spec_fn(int) -> bool, k: int)
    requires
        0 <= k,
    ensures
        match sp.first_match_where(s, adm, k) {
            Some((j, e)) => k <= j <= s.len() && adm(j) && sp.match_end(s, j) == Some(e) && forall|i: int|
                k <= i < j && adm(i) ==> #[trigger] sp.match_end(s, i) is None,
            None => forall|i: int| k <= i <= s.len() && adm(i) ==> #[trigger] sp.match_end(s, i) is None,
        },
    decreases s.len() + 1 - k,
{
    if k <= s.len() {
        lemma_first_match_where_least(sp, s, adm, k + 1);
    }
}

/// Without a prefilter, anchor at the start or empty match, `find` reports
/// the match `find_at` finds at the first position where one starts, and
/// nothing when `find_at` finds none at any position.
pub proof fn lemma_find_is_first_find_at(sp: DfaSpec, s: Seq<char>)
    requires
        !sp.anchored_start,
        !sp.accepts_empty(),
    ensures
        match sp.dfa_search(DfaPrefilter::Disabled, s) {
            Some(m) => exists|j: int|
                0 <= j <= s.len() && m == span_to_match(s, j, sp.match_end(s, j))->0 && sp.match_end(s, j) is Some
                    && forall|i: int| 0 <= i < j ==> #[trigger] sp.match_end(s, i) is None,
            None => forall|i: int| 0 <= i <= s.len() ==> #[trigger] sp.match_end(s, i) is None,
        },
{
    lemma_first_match_where_least(sp, s, any_pos(), 0);
}


impl DfaSpec {
    /// The last position `j <= k` admitted by `adm` at which a match starts,
    /// with the end of the longest match there.
    pub open spec fn last_match_where(self, s: Seq<char>, adm: spec_fn(int) -> bool, k: int) -> Option<(int, int)>
        decreases k + 1,
    {
        if k < 0 || k > s.len() {
            None
        } else if adm(k) && self.match_end(s, k) is Some {
            Some((k, self.match_end(s, k)->0))
        } else {
            self.last_match_where(s, adm, k - 1)
        }
    }

    /// Reverse search for an end-anchored pattern: the rightmost position
    /// where a match starts, kept only when that match reaches the end.
    pub open spec fn anchored_rev(self, s: Seq<char>) -> Option<DfaMatch> {
        match self.last_match_where(s, any_pos(), s.len() as int) {
            Some((j, e)) => if e == s.len() {
                pair_to_match(s, Some((j, e)))
            } else {
                None
            },
            None => None,
        }
    }
}

/// Positions that `adm` rejects or where no match starts can be skipped, right to left.
pub proof fn lemma_last_match_skip(sp: DfaSpec, s: Seq<char>, adm: spec_fn(int) -> bool, a: int, b: int)
    requires
        -1 <= a <= b <= s.len(),
        forall|j: int| a < j <= b ==> !(adm(j) && #[trigger] sp.match_end(s, j) is Some),
    ensures
        sp.last_match_where(s, adm, b) == sp.last_match_where(s, adm, a),
    decreases b - a,
{
    if a < b {
        assert(!(adm(b) && sp.match_end(s, b) is Some));
        lemma_last_match_skip(sp, s, adm, a, b - 1);
    }
}

/// The rightmost position before `pos` that a byte prefilter admits.
fn prev_candidate(pf: &DfaPrefilter, bytes: &[u8], pos: usize) -> (r: Option<usize>)
    requires
        pos <= bytes@.len(),
        pf is SingleByte || pf is TwoBytes || pf is ThreeBytes,
    ensures
        match r {
            Some(p) => p < pos && pf_admits(*pf, bytes@, p as int) && forall|q: int|
                p < q < pos ==> !#[trigger] pf_admits(*pf, bytes@, q),
            None => forall|q: int| 0 <= q < pos ==> !#[trigger] pf_admits(*pf, bytes@, q),
        },
{
    let head = &bytes[0..pos];
    let ghost h = bytes@;
    assert(head@ == h.subrange(0, pos as int));
    assert forall|q: int| 0 <= q < pos implies #[trigger] head@[q] == h[q] by {}
    match pf {
        DfaPrefilter::SingleByte(a) => {
            let r = rfind_byte(*a, head);
            proof {
                match r {
                    Some(p) => {
                        assert(head@[p as int] == *a);
                        assert forall|q: int| p < q < pos implies !#[trigger] pf_admits(*pf, h, q) by {
                            assert(head@[q] != *a);
                        }
                    },
                    None => {
                        assert forall|q: int| 0 <= q < pos implies !#[trigger] pf_admits(*pf, h, q) by {
                            assert(head@[q] != *a);
                        }
                    },
                }
            }
            r
        },
        DfaPrefilter::TwoBytes(a, b) => {
            let f1 = rfind_byte(*a, head);
            let f2 = rfind_byte(*b, head);
            let r = match (f1, f2) {
                (Some(p1), Some(p2)) => if p1 >= p2 {
                    Some(p1)
                } else {
                    Some(p2)
                },
                (Some(p), None) => Some(p),
                (None, Some(p)) => Some(p),
                (None, None) => None,
            };
            proof {
                assert forall|q: int| 0 <= q < pos && #[trigger] pf_admits(*pf, h, q) implies (r matches Some(p) && q <= p) by {
                    if head@[q] == *a {
                        assert(f1 is Some);
                    } else {
                        assert(head@[q] == *b);
                        assert(f2 is Some);
                    }
                }
                if let Some(p) = r {
                    if f1 == Some(p) {
                        assert(head@[p as int] == *a);
                    } else {
                        assert(head@[p as int] == *b);
                    }
                    assert forall|q: int| p < q < pos implies !#[trigger] pf_admits(*pf, h, q) by {
                        if let Some(p1) = f1 {
                            assert(p1 <= p);
                        }
                        if let Some(p2) = f2 {
                            assert(p2 <= p);
                        }
                        assert(head@[q] != *a);
                        assert(head@[q] != *b);
                    }
                }
            }
            r
        },
        DfaPrefilter::ThreeBytes(a, b, c) => {
            let f1 = rfind_byte(*a, head);
            let f2 = rfind_byte(*b, head);
            let f3 = rfind_byte(*c, head);
            let m12 = match (f1, f2) {
                (Some(p1), Some(p2)) => if p1 >= p2 {
                    Some(p1)
                } else {
                    Some(p2)
                },
                (Some(p), None) => Some(p),
                (None, Some(p)) => Some(p),
                (None, None) => None,
            };
            let r = match (m12, f3) {
                (Some(p1), Some(p2)) => if p1 >= p2 {
                    Some(p1)
                } else {
                    Some(p2)
                },
                (Some(p), None) => Some(p),
                (None, Some(p)) => Some(p),
                (None, None) => None,
            };
            proof {
                assert forall|q: int| 0 <= q < pos && #[trigger] pf_admits(*pf, h, q) implies (r matches Some(p) && q <= p) by {
                    if head@[q] == *a {
                        assert(f1 is Some);
                    } else if head@[q] == *b {
                        assert(f2 is Some);
                    } else {
                        assert(head@[q] == *c);
                        assert(f3 is Some);
                    }
                }
                if let Some(p) = r {
                    if f1 == Some(p) {
                        assert(head@[p as int] == *a);
                    } else if f2 == Some(p) {
                        assert(head@[p as int] == *b);
                    } else {
                        assert(head@[p as int] == *c);
                    }
                    assert forall|q: int| p < q < pos implies !#[trigger] pf_admits(*pf, h, q) by {
                        if let Some(p1) = f1 {
                            assert(p1 <= p);
                        }
                        if let Some(p2) = f2 {
                            assert(p2 <= p);
                        }
                        if let Some(p3) = f3 {
                            assert(p3 <= p);
                        }
                        assert(head@[q] != *a);
                        assert(head@[q] != *b);
                        assert(head@[q] != *c);
                    }
                }
            }
            r
        },
        _ => None,
    }
}

impl Dfa {
    /// Fast path for a plain literal, right to left.
    fn find_literal_rev(bytes: &[u8], lit: &[u8]) -> (r: Option<DfaMatch>)
        ensures
            lit@.len() == 0 ==> r == Some(DfaMatch { start: bytes@.len() as usize, end: bytes@.len() as usize }),
            bytes@.len() >= 32 && 4 <= lit@.len() <= 64 ==> literal_rev_result(bytes@, lit@, r),
            lit@.len() > 0 && !(bytes@.len() >= 32 && 4 <= lit@.len() <= 64) ==> r == literal_rev_match(bytes@, lit@),
    {
        let len = bytes.len();
        let lit_len = lit.len();
        assert(len == bytes@.len() && lit_len == lit@.len());
        if lit_len == 0 {
            assert(occurs_at(bytes@, lit@, len as int)) by {
                assert(bytes@.subrange(len as int, len as int) =~= lit@);
            }
            return Some(DfaMatch { start: len, end: len });
        }
        if len >= 32 && lit_len >= 4 && lit_len <= 64 {
            let teddy = TeddySearch::new(lit);
            return match teddy.find_last(bytes) {
                Some(pos) => Some(DfaMatch { start: pos, end: pos + lit_len }),
                None => None,
            };
        }
        let first_byte = lit[0];
        let mut pos: usize = len;
        while pos >= lit_len
            invariant
                len == bytes@.len(),
                lit_len == lit@.len(),
                lit_len > 0,
                !(len >= 32 && 4 <= lit_len <= 64),
                first_byte == lit@[0],
                pos <= len,
                literal_rev_scan(bytes@, lit@, len as int) == literal_rev_scan(bytes@, lit@, pos as int),
            decreases pos,
        {
            let head = &bytes[0..pos];
            match rfind_byte(first_byte, head) {
                Some(start) => {
                    proof {
                        assert forall|j: int| start < j < pos implies #[trigger] bytes@[j] != first_byte by {
                            assert(head@[j] == bytes@[j]);
                        }
                        assert(head@[start as int] == bytes@[start as int]);
                        lemma_last_byte_before(bytes@, first_byte, pos as int, Some(start as int));
                    }
                    if start <= len - lit_len && bytes_occur_at(bytes, start, lit) {
                        return Some(DfaMatch { start, end: start + lit_len });
                    }
                    proof {
                        assert(!occurs_at(bytes@, lit@, start as int));
                    }
                    pos = start;
                },
                None => {
                    proof {
                        assert forall|j: int| 0 <= j < pos implies #[trigger] bytes@[j] != first_byte by {
                            assert(head@[j] == bytes@[j]);
                        }
                        lemma_last_byte_before(bytes@, first_byte, pos as int, None);
                    }
                    return None;
                },
            }
        }
        None
    }

    /// Right-to-left search over the positions a byte prefilter admits.
    fn find_rev_candidates(&mut self, pf: &DfaPrefilter, bytes: &[u8], chars: &Vec<char>, offs: &Vec<usize>) -> (r:
        Option<DfaMatch>)
        requires
            old(self).wf(),
            offsets_of(chars@, offs@),
            bytes@ == encode_utf8(chars@),
            pf is SingleByte || pf is TwoBytes || pf is ThreeBytes,
        ensures
            final(self).wf(),
            final(self).extends(old(self)),
            old(self).stable_for(chars@) && final(self).states@.len() < MAX_STATES ==> final(self).sound() && r
                == pair_to_match(chars@, old(self).spec().last_match_where(chars@, pf_candidate(*pf, chars@), chars@.len() as int)),
    {
        let ghost sp = self.spec();
        let ghost s = chars@;
        let ghost adm = pf_candidate(*pf, s);
        let ghost good = self.stable_for(s);
        let len = bytes.len();
        proof {
            lemma_offset_bounds(s, s.len() as int);
            lemma_offset_bounds(s, 0);
            assert(offs.len() == offs@.len());
            if good {
                assert(!adm(s.len() as int));
                lemma_last_match_skip(sp, s, adm, s.len() - 1, s.len() as int);
            }
            assert forall|j: int| 0 <= j < s.len() implies #[trigger] offs@[j] < len by {
                lemma_offset_strict(s, j, s.len() as int);
            }
            if len == 0 && s.len() > 0 {
                assert(offs@[0] < len);
            }
        }
        let mut pos: usize = len;
        let mut k: usize = chars.len();
        while pos > 0
            invariant
                self.wf(),
                self.extends(old(self)),
                sp == old(self).spec(),
                s == chars@,
                adm == pf_candidate(*pf, s),
                offsets_of(s, offs@),
                bytes@ == encode_utf8(s),
                len == bytes@.len(),
                offs@[s.len() as int] == len,
                pos <= len,
                k <= s.len(),
                forall|j: int| 0 <= j < k ==> #[trigger] offs@[j] < pos,
                offs@[k as int] >= pos,
                pos == 0 ==> k == 0,
                pf is SingleByte || pf is TwoBytes || pf is ThreeBytes,
                good == old(self).stable_for(s),
                good && self.states@.len() < MAX_STATES ==> self.stable_for(s) && sp.last_match_where(s, adm, s.len() as int)
                    == sp.last_match_where(s, adm, k - 1),
            ensures
                self.wf(),
                self.extends(old(self)),
                good && self.states@.len() < MAX_STATES ==> self.stable_for(s) && sp.last_match_where(s, adm, s.len() as int) is None,
            decreases pos,
        {
            match prev_candidate(pf, bytes, pos) {
                None => {
                    proof {
                        if good && self.states@.len() < MAX_STATES {
                            assert forall|j: int| -1 < j <= k - 1 implies !(adm(j) && #[trigger] sp.match_end(s, j) is Some) by {
                                assert(offs@[j] < pos);
                            }
                            lemma_last_match_skip(sp, s, adm, -1, k - 1);
                        }
                    }
                    break;
                },
                Some(p) => {
                    let ghost k_old = k;
                    while k > 0 && offs[k - 1] > p
                        invariant
                            k <= k_old <= s.len(),
                            s == chars@,
                            offsets_of(s, offs@),
                            forall|j: int| k <= j < k_old ==> #[trigger] offs@[j] > p,
                        decreases k,
                    {
                        k = k - 1;
                    }
                    proof {
                        if good && self.states@.len() < MAX_STATES {
                            assert forall|j: int| k - 1 < j <= k_old - 1 implies !(adm(j) && #[trigger] sp.match_end(s, j) is Some) by {
                                assert(offs@[j] > p);
                                assert(offs@[j] < pos);
                            }
                            lemma_last_match_skip(sp, s, adm, k - 1, k_old - 1);
                        }
                    }
                    let ghost k_mid = k;
                    if k > 0 && offs[k - 1] == p {
                        if let Some(e) = self.find_at_chars(chars, k - 1) {
                            proof {
                                if good && self.states@.len() < MAX_STATES {
                                    assert(adm(k - 1));
                                    assert(sp.match_end(s, k - 1) == Some(e as int));
                                }
                            }
                            return Some(DfaMatch { start: offs[k - 1], end: offs[e] });
                        }
                        proof {
                            if good && self.states@.len() < MAX_STATES {
                                lemma_last_match_skip(sp, s, adm, k - 2, k - 1);
                            }
                            assert forall|j: int| 0 <= j < k_mid - 1 implies #[trigger] offs@[j] < p by {
                                lemma_offset_strict(s, j, k_mid - 1);
                            }
                        }
                        k = k - 1;
                    } else {
                        proof {
                            assert forall|j: int| 0 <= j < k implies #[trigger] offs@[j] < p by {
                                assert(offs@[k - 1] < p);
                                if j < k - 1 {
                                    lemma_offset_strict(s, j, k - 1);
                                }
                            }
                        }
                    }
                    proof {
                        if k < k_old {
                            assert(offs@[k as int] >= p);
                        } else {
                            assert(offs@[k as int] >= pos);
                        }
                        if p == 0 && k > 0 {
                            assert(offs@[0] < p);
                        }
                    }
                    pos = p;
                },
            }
        }
        proof {
            if good && self.states@.len() < MAX_STATES && pos == 0 {
                assert(k == 0) by {
                    if k > 0 {
                        assert(offs@[0] < pos);
                    }
                }
            }
        }
        None
    }
}


/// The last element, if any.
pub open spec fn last_of<T>(v: Seq<T>) -> Option<T> {
    if v.len() == 0 {
        None
    } else {
        Some(v.last())
    }
}

/// `m` is the longest match starting at some character position of `s`.
pub open spec fn is_match_of(sp: DfaSpec, s: Seq<char>, m: DfaMatch) -> bool {
    exists|j: int|
        0 <= j <= s.len() && #[trigger] sp.match_end(s, j) is Some && m == DfaMatch {
            start: byte_offset(s, j) as usize,
            end: byte_offset(s, sp.match_end(s, j)->0) as usize,
        }
}

/// What `find_rev` returns.
pub open spec fn rev_result(sp: DfaSpec, pf: DfaPrefilter, lit: Option<Seq<u8>>, s: Seq<char>, r: Option<DfaMatch>) -> bool {
    let h = encode_utf8(s);
    if s.len() == 0 {
        r == if sp.accepts_empty() {
            Some(DfaMatch { start: 0, end: 0 })
        } else {
            None
        }
    } else if sp.anchored_end && !sp.ml {
        r == sp.anchored_rev(s)
    } else {
        match lit {
            Some(l) => (l.len() == 0 ==> r == Some(DfaMatch { start: h.len() as usize, end: h.len() as usize })) && (
            h.len() >= 32 && 4 <= l.len() <= 64 ==> literal_rev_result(h, l, r)) && (l.len() > 0 && !(h.len() >= 32 && 4
                <= l.len() <= 64) ==> r == literal_rev_match(h, l)),
            None => match pf {
                DfaPrefilter::SingleByte(_) => r == pair_to_match(s, sp.last_match_where(s, pf_candidate(pf, s), s.len() as int)),
                DfaPrefilter::TwoBytes(_, _) => r == pair_to_match(s, sp.last_match_where(s, pf_candidate(pf, s), s.len() as int)),
                DfaPrefilter::ThreeBytes(_, _, _) => r == pair_to_match(
                    s,
                    sp.last_match_where(s, pf_candidate(pf, s), s.len() as int),
                ),
                DfaPrefilter::CharClassRanges(rs) => r == rev_ranges(sp, s, rs@, h.len() as int),
                _ => r == last_of(spans_to_matches(s, sp.all_from(s, 0))),
            },
        }
    }
}

/// The last position before `pos` whose byte lies in one of the ranges.
pub open spec fn last_in_ranges(h: Seq<u8>, rs: Seq<(u8, u8)>, pos: int) -> Option<int>
    decreases pos,
{
    if pos <= 0 {
        None
    } else if in_ranges(rs, h[pos - 1]) {
        Some(pos - 1)
    } else {
        last_in_ranges(h, rs, pos - 1)
    }
}

/// The first position of the run of in-range bytes that reaches back from `f`.
pub open spec fn run_start(h: Seq<u8>, rs: Seq<(u8, u8)>, f: int) -> int
    decreases f,
{
    if f > 0 && in_ranges(rs, h[f - 1]) {
        run_start(h, rs, f - 1)
    } else {
        f
    }
}

/// The character position that starts at byte `b`, if there is one.
pub open spec fn char_at_byte(s: Seq<char>, b: int) -> Option<int> {
    if exists|k: int| 0 <= k <= s.len() && byte_offset(s, k) == b {
        Some(choose|k: int| 0 <= k <= s.len() && byte_offset(s, k) == b)
    } else {
        None
    }
}

/// The match tried from the start of the run of in-range bytes that ends
/// at the last in-range byte before `pos`; the search goes on leftwards
/// from that byte while a try fails.
pub open spec fn rev_ranges(sp: DfaSpec, s: Seq<char>, rs: Seq<(u8, u8)>, pos: int) -> Option<DfaMatch>
    decreases pos,
{
    let h = encode_utf8(s);
    if pos <= 0 {
        None
    } else {
        match last_in_ranges(h, rs, pos) {
            None => None,
            Some(f) => {
                let tried = match char_at_byte(s, run_start(h, rs, f)) {
                    Some(k) => match sp.match_end(s, k) {
                        Some(e) => Some(DfaMatch { start: byte_offset(s, k) as usize, end: byte_offset(s, e) as usize }),
                        None => None,
                    },
                    None => None,
                };
                if tried is Some {
                    tried
                } else if 0 <= f < pos {
                    rev_ranges(sp, s, rs, f)
                } else {
                    None
                }
            },
        }
    }
}

/// Byte `b` of `h` starts a run of bytes in the ranges.
pub open spec fn starts_run(h: Seq<u8>, rs: Seq<(u8, u8)>, b: int) -> bool {
    0 <= b < h.len() && in_ranges(rs, h[b]) && (b == 0 || !in_ranges(rs, h[b - 1]))
}

proof fn lemma_last_in_ranges_after(h: Seq<u8>, rs: Seq<(u8, u8)>, pos: int, b: int)
    requires
        0 <= b < pos <= h.len(),
        in_ranges(rs, h[b]),
    ensures
        last_in_ranges(h, rs, pos) matches Some(f) && b <= f < pos && in_ranges(rs, h[f]),
    decreases pos,
{
    if !in_ranges(rs, h[pos - 1]) {
        lemma_last_in_ranges_after(h, rs, pos - 1, b);
    }
}

proof fn lemma_run_start_bounds(h: Seq<u8>, rs: Seq<(u8, u8)>, f: int)
    requires
        0 <= f <= h.len(),
    ensures
        0 <= run_start(h, rs, f) <= f,
        forall|j: int| run_start(h, rs, f) <= j < f ==> in_ranges(rs, #[trigger] h[j]),
    decreases f,
{
    if f > 0 && in_ranges(rs, h[f - 1]) {
        lemma_run_start_bounds(h, rs, f - 1);
    }
}

/// The leftward search over runs of in-range bytes misses no match: when a
/// match starts at character `k`, whose byte starts a run of in-range bytes
/// before `pos`, the search from `pos` reports a match.
pub proof fn lemma_rev_ranges_complete(sp: DfaSpec, s: Seq<char>, rs: Seq<(u8, u8)>, pos: int, k: int)
    requires
        0 <= k <= s.len(),
        byte_offset(s, k) < pos <= encode_utf8(s).len(),
        starts_run(encode_utf8(s), rs, byte_offset(s, k)),
        sp.match_end(s, k) is Some,
    ensures
        rev_ranges(sp, s, rs, pos) is Some,
    decreases pos,
{
    let h = encode_utf8(s);
    let b = byte_offset(s, k);
    lemma_last_in_ranges_after(h, rs, pos, b);
    let f = last_in_ranges(h, rs, pos)->0;
    lemma_run_start_bounds(h, rs, f);
    let r0 = run_start(h, rs, f);
    if r0 == b {
        lemma_char_at_byte(s, k);
    } else {
        if r0 < b {
            assert(in_ranges(rs, h[b - 1]));
            assert(false);
        }
        lemma_rev_ranges_complete(sp, s, rs, f, k);
    }
}

proof fn lemma_last_in_ranges_props(h: Seq<u8>, rs: Seq<(u8, u8)>, pos: int)
    requires
        pos <= h.len(),
    ensures
        match last_in_ranges(h, rs, pos) {
            Some(f) => 0 <= f < pos && in_ranges(rs, h[f]) && forall|j: int| f < j < pos ==> !in_ranges(rs, #[trigger] h[j]),
            None => forall|j: int| 0 <= j < pos ==> !in_ranges(rs, #[trigger] h[j]),
        },
    decreases pos,
{
    if pos > 0 && !in_ranges(rs, h[pos - 1]) {
        lemma_last_in_ranges_props(h, rs, pos - 1);
    }
}

proof fn lemma_run_start_stops(h: Seq<u8>, rs: Seq<(u8, u8)>, f: int)
    requires
        0 <= f <= h.len(),
    ensures
        run_start(h, rs, f) > 0 ==> !in_ranges(rs, h[run_start(h, rs, f) - 1]),
    decreases f,
{
    if f > 0 && in_ranges(rs, h[f - 1]) {
        lemma_run_start_stops(h, rs, f - 1);
    }
}

/// What the leftward search over runs reports is the match at the start of
/// a run of in-range bytes before `pos`, and no run starting between that
/// one and `pos` has a match: the rightmost run start with a match.
pub proof fn lemma_rev_ranges_rightmost(sp: DfaSpec, s: Seq<char>, rs: Seq<(u8, u8)>, pos: int)
    requires
        pos <= encode_utf8(s).len(),
    ensures
        rev_ranges(sp, s, rs, pos) matches Some(m) ==> exists|k: int|
            #![trigger byte_offset(s, k)]
            0 <= k <= s.len() && starts_run(encode_utf8(s), rs, byte_offset(s, k)) && byte_offset(s, k) < pos
                && sp.match_end(s, k) is Some && Some(m) == span_to_match(s, k, sp.match_end(s, k)) && forall|k2: int|
                0 <= k2 <= s.len() && byte_offset(s, k) < #[trigger] byte_offset(s, k2) < pos && starts_run(
                    encode_utf8(s),
                    rs,
                    byte_offset(s, k2),
                ) ==> sp.match_end(s, k2) is None,
    decreases pos,
{
    let h = encode_utf8(s);
    if pos > 0 {
        lemma_last_in_ranges_props(h, rs, pos);
        if let Some(f) = last_in_ranges(h, rs, pos) {
            lemma_run_start_bounds(h, rs, f);
            lemma_run_start_stops(h, rs, f);
            let r0 = run_start(h, rs, f);
            assert(in_ranges(rs, h[r0]));
            let tried = match char_at_byte(s, r0) {
                Some(k) => match sp.match_end(s, k) {
                    Some(e) => Some(DfaMatch { start: byte_offset(s, k) as usize, end: byte_offset(s, e) as usize }),
                    None => None,
                },
                None => None,
            };
            if tried is Some {
                let k = char_at_byte(s, r0)->0;
                assert(starts_run(h, rs, byte_offset(s, k)));
                assert forall|k2: int|
                    0 <= k2 <= s.len() && byte_offset(s, k) < #[trigger] byte_offset(s, k2) < pos && starts_run(h, rs, byte_offset(s, k2))
                        implies sp.match_end(s, k2) is None by {
                    let b2 = byte_offset(s, k2);
                    if b2 > f {
                        assert(!in_ranges(rs, h[b2]));
                    } else {
                        assert(in_ranges(rs, h[b2 - 1]));
                    }
                }
            } else {
                lemma_rev_ranges_rightmost(sp, s, rs, f);
                if let Some(m) = rev_ranges(sp, s, rs, f) {
                    let k = choose|k: int|
                        #![trigger byte_offset(s, k)]
                        0 <= k <= s.len() && starts_run(h, rs, byte_offset(s, k)) && byte_offset(s, k) < f
                            && sp.match_end(s, k) is Some && Some(m) == span_to_match(s, k, sp.match_end(s, k)) && forall|k2: int|
                            0 <= k2 <= s.len() && byte_offset(s, k) < #[trigger] byte_offset(s, k2) < f && starts_run(
                                h,
                                rs,
                                byte_offset(s, k2),
                            ) ==> sp.match_end(s, k2) is None;
                    assert forall|k2: int|
                        0 <= k2 <= s.len() && byte_offset(s, k) < #[trigger] byte_offset(s, k2) < pos && starts_run(h, rs, byte_offset(s, k2))
                            implies sp.match_end(s, k2) is None by {
                        let b2 = byte_offset(s, k2);
                        if b2 > f {
                            assert(!in_ranges(rs, h[b2]));
                        } else if b2 == f {
                            if r0 < f {
                                assert(in_ranges(rs, h[f - 1]));
                            } else {
                                lemma_char_at_byte(s, k2);
                            }
                        }
                    }
                }
            }
        }
    }
}

/// `find_rev` misses no match under a byte-range prefilter: when a match
/// starts at a character whose byte starts a run of in-range bytes, the
/// rightmost-match search reports one.
pub proof fn lemma_find_rev_ranges_complete(sp: DfaSpec, rs: Vec<(u8, u8)>, s: Seq<char>, r: Option<DfaMatch>, k: int)
    requires
        rev_result(sp, DfaPrefilter::CharClassRanges(rs), None, s, r),
        s.len() > 0,
        !(sp.anchored_end && !sp.ml),
        0 <= k <= s.len(),
        starts_run(encode_utf8(s), rs@, byte_offset(s, k)),
        sp.match_end(s, k) is Some,
    ensures
        r is Some,
{
    lemma_offset_bounds(s, k);
    lemma_rev_ranges_complete(sp, s, rs@, encode_utf8(s).len() as int, k);
}

proof fn lemma_last_in_ranges(h: Seq<u8>, rs: Seq<(u8, u8)>, pos: int, f: Option<int>)
    requires
        0 <= pos <= h.len(),
        f matches Some(i) ==> 0 <= i < pos && in_ranges(rs, h[i]) && forall|j: int| i < j < pos ==> !in_ranges(rs, #[trigger] h[j]),
        f is None ==> forall|j: int| 0 <= j < pos ==> !in_ranges(rs, #[trigger] h[j]),
    ensures
        last_in_ranges(h, rs, pos) == f,
    decreases pos,
{
    if pos > 0 {
        if f != Some(pos - 1) {
            assert(!in_ranges(rs, h[pos - 1]));
            lemma_last_in_ranges(h, rs, pos - 1, f);
        }
    }
}

proof fn lemma_char_at_byte(s: Seq<char>, k: int)
    requires
        0 <= k <= s.len(),
    ensures
        char_at_byte(s, byte_offset(s, k)) == Some(k),
{
    let b = byte_offset(s, k);
    assert(exists|q: int| 0 <= q <= s.len() && byte_offset(s, q) == b);
    let q = choose|q: int| 0 <= q <= s.len() && byte_offset(s, q) == b;
    if q < k {
        lemma_offset_strict(s, q, k);
    } else if k < q {
        lemma_offset_strict(s, k, q);
    }
}

/// The character index whose byte offset is `b`, if there is one.
fn offset_index(offs: &Vec<usize>, b: usize, s: Ghost<Seq<char>>) -> (r: Option<usize>)
    requires
        offsets_of(s@, offs@),
    ensures
        match r {
            Some(k) => k <= s@.len() && offs@[k as int] == b,
            None => forall|k: int| 0 <= k <= s@.len() ==> #[trigger] offs@[k] != b,
        },
{
    let mut lo: usize = 0;
    let mut hi: usize = offs.len();
    while lo < hi
        invariant
            offsets_of(s@, offs@),
            0 <= lo <= hi <= offs@.len(),
            forall|k: int| 0 <= k < lo ==> #[trigger] offs@[k] < b,
            forall|k: int| hi <= k < offs@.len() ==> #[trigger] offs@[k] > b,
        decreases hi - lo,
    {
        let mid = lo + (hi - lo) / 2;
        if offs[mid] == b {
            return Some(mid);
        } else if offs[mid] < b {
            proof {
                assert forall|k: int| 0 <= k < mid + 1 implies #[trigger] offs@[k] < b by {
                    if k < mid {
                        lemma_offset_strict(s@, k, mid as int);
                    }
                }
            }
            lo = mid + 1;
        } else {
            proof {
                assert forall|k: int| mid <= k < offs@.len() implies #[trigger] offs@[k] > b by {
                    if k > mid {
                        lemma_offset_strict(s@, mid as int, k);
                    }
                }
            }
            hi = mid;
        }
    }
    None
}

impl Dfa {
    /// Right-to-left search for an end-anchored pattern.
    fn find_rev_anchored(&mut self, chars: &Vec<char>, offs: &Vec<usize>) -> (r: Option<DfaMatch>)
        requires
            old(self).wf(),
            offsets_of(chars@, offs@),
        ensures
            final(self).wf(),
            final(self).extends(old(self)),
            old(self).stable_for(chars@) && final(self).states@.len() < MAX_STATES ==> final(self).sound() && r
                == old(self).spec().anchored_rev(chars@),
    {
        let ghost sp = self.spec();
        let ghost s = chars@;
        let ghost good = self.stable_for(s);
        proof {
            assert(offs.len() == offs@.len());
        }
        let mut k: usize = offs.len();
        while k > 0
            invariant
                self.wf(),
                self.extends(old(self)),
                sp == old(self).spec(),
                s == chars@,
                offsets_of(s, offs@),
                k <= s.len() + 1,
                good == old(self).stable_for(s),
                good && self.states@.len() < MAX_STATES ==> self.stable_for(s) && sp.last_match_where(s, any_pos(), s.len() as int)
                    == sp.last_match_where(s, any_pos(), k - 1),
            ensures
                self.wf(),
                self.extends(old(self)),
                good && self.states@.len() < MAX_STATES ==> self.stable_for(s) && sp.last_match_where(s, any_pos(), s.len() as int) is None,
            decreases k,
        {
            k = k - 1;
            if let Some(e) = self.find_at_chars(chars, k) {
                proof {
                    if good && self.states@.len() < MAX_STATES {
                        assert(sp.match_end(s, k as int) == Some(e as int));
                        assert(sp.last_match_where(s, any_pos(), k as int) == Some((k as int, e as int)));
                    }
                }
                if e == chars.len() {
                    return Some(DfaMatch { start: offs[k], end: offs[e] });
                }
                return None;
            }
        }
        None
    }

    /// Right-to-left search over the runs of bytes of a range prefilter:
    /// each run is tried from its first byte.
    fn find_rev_ranges(&mut self, ranges: &Vec<(u8, u8)>, bytes: &[u8], chars: &Vec<char>, offs: &Vec<usize>) -> (r:
        Option<DfaMatch>)
        requires
            old(self).wf(),
            offsets_of(chars@, offs@),
            bytes@ == encode_utf8(chars@),
        ensures
            final(self).wf(),
            final(self).extends(old(self)),
            old(self).stable_for(chars@) && final(self).states@.len() < MAX_STATES ==> final(self).sound() && r
                == rev_ranges(old(self).spec(), chars@, ranges@, bytes@.len() as int),
    {
        let ghost sp = self.spec();
        let ghost s = chars@;
        let ghost h = bytes@;
        let ghost rs = ranges@;
        let ghost good = self.stable_for(s);
        let searcher = RevSearchRanges::new(copy_pairs(ranges));
        let len = bytes.len();
        proof {
            assert(offs.len() == offs@.len());
        }
        let mut pos: usize = len;
        while pos > 0
            invariant
                self.wf(),
                self.extends(old(self)),
                sp == old(self).spec(),
                s == chars@,
                h == bytes@,
                h == encode_utf8(s),
                rs == ranges@,
                searcher.ranges@ == rs,
                offsets_of(s, offs@),
                len == bytes@.len(),
                pos <= len,
                good == old(self).stable_for(s),
                good && self.states@.len() < MAX_STATES ==> self.stable_for(s),
                good && self.states@.len() < MAX_STATES ==> rev_ranges(sp, s, rs, len as int) == rev_ranges(
                    sp,
                    s,
                    rs,
                    pos as int,
                ),
            decreases pos,
        {
            let head = &bytes[0..pos];
            let ghost before = self.states@.len();
            match searcher.find_last(head) {
                Some(found) => {
                    proof {
                        assert forall|j: int| found < j < pos implies !in_ranges(rs, #[trigger] h[j]) by {
                            assert(head@[j] == h[j]);
                        }
                        assert(head@[found as int] == h[found as int]);
                        lemma_last_in_ranges(h, rs, pos as int, Some(found as int));
                    }
                    let mut start: usize = found;
                    if found > 0 && searcher.matches_byte(bytes[found - 1]) {
                        while start > 0 && searcher.matches_byte(bytes[start - 1])
                            invariant
                                start <= found < len,
                                len == bytes@.len(),
                                h == bytes@,
                                searcher.ranges@ == rs,
                                run_start(h, rs, start as int) == run_start(h, rs, found as int),
                            decreases start,
                        {
                            start = start - 1;
                        }
                    }
                    assert(run_start(h, rs, start as int) == start);
                    let ghost st = start as int;
                    match offset_index(offs, start, Ghost(s)) {
                        Some(k) => {
                            proof {
                                lemma_char_at_byte(s, k as int);
                            }
                            if let Some(e) = self.find_at_chars(chars, k) {
                                proof {
                                    if good && self.states@.len() < MAX_STATES {
                                        assert(sp.match_end(s, k as int) == Some(e as int));
                                    }
                                }
                                return Some(DfaMatch { start: offs[k], end: offs[e] });
                            }
                        },
                        None => {
                            proof {
                                if char_at_byte(s, st) is Some {
                                    let q = choose|q: int| 0 <= q <= s.len() && byte_offset(s, q) == st;
                                    assert(offs@[q] == byte_offset(s, q));
                                }
                            }
                        },
                    }
                    pos = found;
                },
                None => {
                    proof {
                        assert forall|j: int| 0 <= j < pos implies !in_ranges(rs, #[trigger] h[j]) by {
                            assert(head@[j] == h[j]);
                        }
                        lemma_last_in_ranges(h, rs, pos as int, None);
                    }
                    return None;
                },
            }
        }
        None
    }

    /// Right-to-left search driven by the prefilter.
    fn find_rev_with_prefilter(&mut self, text: &str, bytes: &[u8], chars: &Vec<char>, offs: &Vec<usize>) -> (r:
        Option<DfaMatch>)
        requires
            old(self).wf(),
            !(old(self).anchored_end && !old(self).multi_line),
            chars@ == text@,
            offsets_of(chars@, offs@),
            bytes@ == encode_utf8(chars@),
        ensures
            final(self).wf(),
            final(self).extends(old(self)),
            old(self).stable_for(chars@) && final(self).states@.len() < MAX_STATES ==> final(self).sound()
                && rev_result(old(self).spec(), old(self).search_prefilter(), None, chars@, r),
            old(self).stable_for(chars@) && final(self).states@.len() < MAX_STATES && chars@.len() == 0 ==> r == if old(
                self,
            ).spec().accepts_empty() {
                Some(DfaMatch { start: 0, end: 0 })
            } else {
                None
            },
    {
        proof {
            lemma_offset_bounds(chars@, chars@.len() as int);
            lemma_offset_bounds(chars@, 0);
            if bytes@.len() == 0 && chars@.len() > 0 {
                lemma_offset_strict(chars@, 0, chars@.len() as int);
            }
        }
        if bytes.len() == 0 {
            return if self.start_accepts() {
                Some(DfaMatch { start: 0, end: 0 })
            } else {
                None
            };
        }
        let pf = copy_prefilter(&self.prefilter);
        proof {
            lemma_pf_same(pf, self.prefilter, chars@);
        }
        match &pf {
            DfaPrefilter::SingleByte(_) => self.find_rev_candidates(&pf, bytes, chars, offs),
            DfaPrefilter::TwoBytes(_, _) => self.find_rev_candidates(&pf, bytes, chars, offs),
            DfaPrefilter::ThreeBytes(_, _, _) => self.find_rev_candidates(&pf, bytes, chars, offs),
            DfaPrefilter::CharClassRanges(ranges) => self.find_rev_ranges(ranges, bytes, chars, offs),
            _ => {
                let all = self.find_all(text);
                if all.len() > 0 {
                    Some(all[all.len() - 1])
                } else {
                    None
                }
            },
        }
    }

    /// Finds the rightmost match (see [`rev_result`] for which one).
    pub fn find_rev(&mut self, text: &str) -> (r: Option<DfaMatch>)
        requires
            old(self).wf(),
        ensures
            final(self).wf(),
            final(self).extends(old(self)),
            old(self).stable_for(text@) && final(self).num_states() < MAX_STATES ==> final(self).sound() && rev_result(
                old(self).spec(),
                old(self).search_prefilter(),
                old(self).literal_fast(),
                text@,
                r,
            ),
    {
        let (chars, offs) = decode_text(text);
        let bytes = text.as_bytes();
        proof {
            lemma_offset_bounds(text@, text@.len() as int);
            lemma_offset_bounds(text@, 0);
            if bytes@.len() == 0 && text@.len() > 0 {
                lemma_offset_strict(text@, 0, text@.len() as int);
            }
        }
        if bytes.len() == 0 {
            return if self.start_accepts() {
                Some(DfaMatch { start: 0, end: 0 })
            } else {
                None
            };
        }
        if self.anchored_end && !self.multi_line {
            return self.find_rev_anchored(&chars, &offs);
        }
        if let Some(lit) = &self.fast_path_literal {
            return Self::find_literal_rev(bytes, lit.as_slice());
        }
        self.find_rev_with_prefilter(text, bytes, &chars, &offs)
    }
}


/// A character index turned into its byte offset.
pub open spec fn opt_offset(s: Seq<char>, o: Option<int>) -> Option<usize> {
    match o {
        Some(e) => Some(byte_offset(s, e) as usize),
        None => None,
    }
}

/// The bytes `b < n` whose transition in `row` is cached, not dead, and
/// leads away from state `st`, in increasing order.
/// Where no transition of the first `n` bytes is cached, none of them is a
/// skip candidate: a freshly built automaton offers none.
pub proof fn lemma_uncached_no_candidates(row: Seq<u32>, st: u32, n: int)
    requires
        n <= row.len(),
        forall|b: int| 0 <= b < n ==> #[trigger] row[b] == TRANS_UNKNOWN,
    ensures
        interesting_bytes(row, st, n).len() == 0,
    decreases n,
{
    if n > 0 {
        assert(row[n - 1] == TRANS_UNKNOWN);
        lemma_uncached_no_candidates(row, st, n - 1);
    }
}

pub open spec fn interesting_bytes(row: Seq<u32>, st: u32, n: int) -> Seq<u8>
    decreases n,
{
    if n <= 0 {
        Seq::empty()
    } else {
        let rest = interesting_bytes(row, st, n - 1);
        let t = row[n - 1];
        if t != TRANS_UNKNOWN && t != TRANS_DEAD && t != st {
            rest.push((n - 1) as u8)
        } else {
            rest
        }
    }
}

impl Dfa {
    /// Whether the pattern is anchored at the start (`^`).
    pub fn is_anchored_start(&self) -> (r: bool)
        ensures
            r == self.spec().anchored_start,
    {
        self.anchored_start
    }

    /// Whether the pattern holds an end anchor (`$`).
    pub fn is_anchored_end(&self) -> (r: bool)
        ensures
            r == self.spec().anchored_end,
    {
        self.anchored_end
    }

    /// The number of DFA states built so far.
    pub fn state_count(&self) -> (r: usize)
        ensures
            r == self.num_states(),
    {
        self.states.len()
    }

    /// The transitions cached for ASCII bytes from the start state.
    pub closed spec fn start_row(&self) -> Seq<u32> {
        self.states@[self.start as int].ascii_transitions.table@
    }

    /// The id of the start state.
    pub closed spec fn start_state(&self) -> u32 {
        self.start
    }

    /// The ASCII bytes on which the start state moves to another live state
    /// (as far as transitions are cached), or `None` when there are more than 32.
    pub fn get_skip_candidates(&self) -> (r: Option<Vec<u8>>)
        requires
            self.wf(),
        ensures
            match r {
                Some(v) => v@ == interesting_bytes(self.start_row(), self.start_state(), 128) && v@.len() <= 32,
                None => interesting_bytes(self.start_row(), self.start_state(), 128).len() > 32,
            },
    {
        assert(self.state_wf(self.states@[self.start as int]));
        let start_state = &self.states[self.start as usize];
        let mut interesting: Vec<u8> = Vec::new();
        let mut b: u8 = 0;
        while b < 128
            invariant
                0 <= b <= 128,
                start_state.ascii_transitions.table@.len() == 128,
                start_state.ascii_transitions.table@ == self.start_row(),
                interesting@ == interesting_bytes(self.start_row(), self.start_state(), b as int),
            decreases 128 - b,
        {
            let target = start_state.ascii_transitions.get(b);
            if target != TRANS_UNKNOWN && target != TRANS_DEAD && target != self.start {
                interesting.push(b);
            }
            b = b + 1;
        }
        if interesting.len() > 32 {
            None
        } else {
            Some(interesting)
        }
    }

    /// Caches every ASCII transition of every state, creating the states
    /// they lead to.
    pub fn complete(&mut self)
        requires
            old(self).wf(),
        ensures
            final(self).wf(),
            final(self).extends(old(self)),
            final(self).ascii_complete(),
            old(self).sound() && final(self).num_states() < MAX_STATES ==> final(self).sound(),
            old(self).ascii_complete() ==> *final(self) == *old(self),
    {
        let ghost good = self.sound();
        let mut i: usize = 0;
        while i < self.states.len()
            invariant
                self.wf(),
                self.extends(old(self)),
                i <= self.states@.len(),
                good == old(self).sound(),
                good && self.states@.len() < MAX_STATES ==> self.sound(),
                forall|j: int, x: int| 0 <= j < i && 0 <= x < 128 ==> #[trigger] self.states@[j].ascii_transitions.table@[x]
                    != TRANS_UNKNOWN,
                old(self).ascii_complete() ==> *self == *old(self),
            decreases MAX_STATES - i,
        {
            let mut b: u8 = 0;
            while b < 128
                invariant
                    self.wf(),
                    self.extends(old(self)),
                    i < self.states@.len(),
                    0 <= b <= 128,
                    good == old(self).sound(),
                    good && self.states@.len() < MAX_STATES ==> self.sound(),
                    forall|j: int, x: int| 0 <= j < i && 0 <= x < 128 ==> #[trigger] self.states@[j].ascii_transitions.table@[x]
                        != TRANS_UNKNOWN,
                    forall|x: int| 0 <= x < b ==> #[trigger] self.states@[i as int].ascii_transitions.table@[x]
                        != TRANS_UNKNOWN,
                    old(self).ascii_complete() ==> *self == *old(self),
                decreases 128 - b,
            {
                let ghost before = *self;
                let ch = b as char;
                proof {
                    assert(is_ascii_char(ch));
                    assert((ch as u32) as int == b as int);
                    if old(self).ascii_complete() {
                        assert(old(self).states@[i as int].ascii_transitions.table@[b as int] != TRANS_UNKNOWN);
                    }
                }
                let _ = self.next_state(i as u32, ch);
                proof {
                    assert forall|j: int, x: int| 0 <= j < i && 0 <= x < 128 implies #[trigger] self.states@[j].ascii_transitions.table@[x]
                        != TRANS_UNKNOWN by {
                        assert(before.states@[j].ascii_transitions.table@[x] != TRANS_UNKNOWN);
                    }
                    assert forall|x: int| 0 <= x < b + 1 implies #[trigger] self.states@[i as int].ascii_transitions.table@[x]
                        != TRANS_UNKNOWN by {
                        if x < b {
                            assert(before.states@[i as int].ascii_transitions.table@[x] != TRANS_UNKNOWN);
                        }
                    }
                }
                b = b + 1;
            }
            i = i + 1;
        }
    }

    /// The end of the longest match starting at the beginning of `text`,
    /// with anchors read in single-line mode.
    pub fn longest_end(&mut self, text: &str) -> (r: Option<usize>)
        requires
            old(self).wf(),
        ensures
            final(self).wf(),
            final(self).extends(old(self)),
            old(self).stable_for(text@) && final(self).num_states() < MAX_STATES ==> final(self).sound() && r
                == opt_offset(text@, old(self).spec().longest_end_spec(text@)),
    {
        let (chars, offs) = decode_text(text);
        let ghost sp = self.spec();
        let start_idx = self.start as usize;
        assert(self.state_wf(self.states@[start_idx as int]));
        let mut last: Option<usize> = None;
        if self.states[start_idx].is_accept && !self.anchored_end {
            last = Some(0);
        }
        proof {
            assert((DfaSpec { ml: false, ..sp }) == sp.single_line());
        }
        match self.run(&chars, 0, false, last) {
            Some(e) => Some(offs[e]),
            None => None,
        }
    }

    /// The cached transition of state `i` on `ch` that leads to a live state.
    spec fn cached_target(&self, i: int, ch: char) -> Option<u32> {
        let st = self.states@[i];
        let uni = st.unicode_transitions@;
        if is_ascii_char(ch) {
            let c = st.ascii_transitions.table@[ch as int];
            if c == TRANS_UNKNOWN || c == TRANS_DEAD {
                None
            } else {
                Some(c)
            }
        } else if exists|a: int| 0 <= a < uni.len() && #[trigger] uni[a].0 == ch && uni[a].1 != TRANS_DEAD {
            Some(uni[choose|a: int| 0 <= a < uni.len() && #[trigger] uni[a].0 == ch && uni[a].1 != TRANS_DEAD].1)
        } else {
            None
        }
    }

    /// The cached transition of state `state_idx` on `ch`, without computing
    /// anything; `None` for the dead state and for uncached transitions.
    fn get_transition(&self, state_idx: usize, ch: char) -> (r: Option<u32>)
        requires
            self.wf(),
            state_idx < self.states@.len(),
        ensures
            r matches Some(t) ==> t < self.states@.len(),
            is_ascii_char(ch) ==> r == (if self.states@[state_idx as int].ascii_transitions.table@[ch as int] == TRANS_UNKNOWN
                || self.states@[state_idx as int].ascii_transitions.table@[ch as int] == TRANS_DEAD {
                None
            } else {
                Some(self.states@[state_idx as int].ascii_transitions.table@[ch as int])
            }),
            !is_ascii_char(ch) ==> match r {
                Some(t) => t != TRANS_DEAD && exists|a: int|
                    0 <= a < self.states@[state_idx as int].unicode_transitions@.len()
                        && #[trigger] self.states@[state_idx as int].unicode_transitions@[a] == (ch, t),
                None => forall|a: int|
                    0 <= a < self.states@[state_idx as int].unicode_transitions@.len()
                        && (#[trigger] self.states@[state_idx as int].unicode_transitions@[a]).0 == ch
                        ==> self.states@[state_idx as int].unicode_transitions@[a].1 == TRANS_DEAD,
            },
            r == self.cached_target(state_idx as int, ch),
    {
        assert(self.state_wf(self.states@[state_idx as int]));
        proof {
            let uni = self.states@[state_idx as int].unicode_transitions@;
            if exists|a: int| 0 <= a < uni.len() && #[trigger] uni[a].0 == ch && uni[a].1 != TRANS_DEAD {
                let w = choose|a: int| 0 <= a < uni.len() && #[trigger] uni[a].0 == ch && uni[a].1 != TRANS_DEAD;
                assert forall|a: int| 0 <= a < uni.len() && #[trigger] uni[a].0 == ch implies a == w by {
                    if a < w {
                        assert(uni[a].0 != uni[w].0);
                    } else if a > w {
                        assert(uni[w].0 != uni[a].0);
                    }
                }
            }
        }
        let state = &self.states[state_idx];
        if is_ascii(ch) {
            let b = ch as u32 as u8;
            assert(b as int == ch as int);
            let cached = state.ascii_transitions.get(b);
            if cached == TRANS_UNKNOWN || cached == TRANS_DEAD {
                None
            } else {
                Some(cached)
            }
        } else {
            match unicode_get(&state.unicode_transitions, ch) {
                Some(t) => if t == TRANS_DEAD {
                    None
                } else {
                    proof {
                        let uni = self.states@[state_idx as int].unicode_transitions@;
                        let a0 = choose|a: int| 0 <= a < uni.len() && #[trigger] uni[a] == (ch, t);
                        assert(uni[a0].0 == ch && uni[a0].1 != TRANS_DEAD);
                    }
                    Some(t)
                },
                None => None,
            }
        }
    }
}


/// `part` assigns each of `n` states a block below `np`, and `rep[p]` is a
/// state of block `p`.
pub open spec fn partition_ok(part: Seq<usize>, np: int, rep: Seq<int>, n: int) -> bool {
    &&& part.len() == n
    &&& forall|i: int| 0 <= i < n ==> #[trigger] part[i] < np
    &&& rep.len() == np
    &&& forall|p: int| 0 <= p < np ==> 0 <= #[trigger] rep[p] < n && part[rep[p]] == p
}

/// A partition has at most as many blocks as there are states.
proof fn lemma_blocks_bounded(part: Seq<usize>, np: int, rep: Seq<int>, n: int)
    requires
        partition_ok(part, np, rep, n),
        0 <= n,
    ensures
        np <= n,
{
    assert(rep.no_duplicates()) by {
        assert forall|i: int, j: int| 0 <= i < rep.len() && 0 <= j < rep.len() && i != j implies rep[i] != rep[j] by {
            assert(part[rep[i]] == i && part[rep[j]] == j);
        }
    }
    rep.unique_seq_to_set();
    vstd::set_lib::lemma_int_range(0, n);
    assert(rep.to_set().subset_of(vstd::set_lib::set_int_range(0, n)));
    vstd::set_lib::lemma_len_subset(rep.to_set(), vstd::set_lib::set_int_range(0, n));
}

fn char_vec_contains(v: &Vec<char>, c: char) -> (r: bool)
    ensures
        r == v@.contains(c),
{
    let mut i: usize = 0;
    while i < v.len()
        invariant
            0 <= i <= v@.len(),
            forall|j: int| 0 <= j < i ==> v@[j] != c,
        decreases v@.len() - i,
    {
        if v[i] == c {
            return true;
        }
        i = i + 1;
    }
    false
}

fn flags_eq(a: (bool, bool, bool), b: (bool, bool, bool)) -> (r: bool)
    ensures
        r == (a == b),
{
    a.0 == b.0 && a.1 == b.1 && a.2 == b.2
}

impl Dfa {
    /// The characters minimization compares states on: every ASCII
    /// character and every character with a cached transition.
    /// Some state has a cached transition on `c`.
    spec fn cached_char(&self, c: char) -> bool {
        exists|i: int, j: int|
            0 <= i < self.states@.len() && 0 <= j < self.states@[i].unicode_transitions@.len()
                && #[trigger] self.states@[i].unicode_transitions@[j].0 == c
    }

    fn build_alphabet(&self) -> (r: Vec<char>)
        ensures
            r@.len() >= 128,
            forall|b: int| 0 <= b < 128 ==> #[trigger] r@[b] == b as char,
            forall|a: int, b: int| 0 <= a < b < r@.len() ==> #[trigger] r@[a] != #[trigger] r@[b],
            forall|i: int, j: int|
                0 <= i < self.states@.len() && 0 <= j < self.states@[i].unicode_transitions@.len() ==> r@.contains(
                    #[trigger] self.states@[i].unicode_transitions@[j].0,
                ),
            forall|x: int| 128 <= x < r@.len() ==> self.cached_char(#[trigger] r@[x]),
    {
        let mut alphabet: Vec<char> = Vec::new();
        let mut b: u8 = 0;
        while b < 128
            invariant
                0 <= b <= 128,
                alphabet@.len() == b,
                forall|c: int| 0 <= c < b ==> #[trigger] alphabet@[c] == c as char,
            decreases 128 - b,
        {
            alphabet.push(b as char);
            b = b + 1;
        }
        proof {
            assert forall|a: int, c: int| 0 <= a < c < alphabet@.len() implies #[trigger] alphabet@[a] != #[trigger] alphabet@[c] by {
                assert(alphabet@[a] == a as char && alphabet@[c] == c as char);
            }
        }
        let mut i: usize = 0;
        while i < self.states.len()
            invariant
                0 <= i <= self.states@.len(),
                alphabet@.len() >= 128,
                forall|c: int| 0 <= c < 128 ==> #[trigger] alphabet@[c] == c as char,
                forall|a: int, c: int| 0 <= a < c < alphabet@.len() ==> #[trigger] alphabet@[a] != #[trigger] alphabet@[c],
                forall|i2: int, j: int|
                    0 <= i2 < i && 0 <= j < self.states@[i2].unicode_transitions@.len() ==> alphabet@.contains(
                        #[trigger] self.states@[i2].unicode_transitions@[j].0,
                    ),
                forall|x: int| 128 <= x < alphabet@.len() ==> self.cached_char(#[trigger] alphabet@[x]),
            decreases self.states@.len() - i,
        {
            let uni = &self.states[i].unicode_transitions;
            let mut j: usize = 0;
            while j < uni.len()
                invariant
                    0 <= j <= uni@.len(),
                    0 <= i < self.states@.len(),
                    uni@ == self.states@[i as int].unicode_transitions@,
                    alphabet@.len() >= 128,
                    forall|c: int| 0 <= c < 128 ==> #[trigger] alphabet@[c] == c as char,
                    forall|a: int, c: int| 0 <= a < c < alphabet@.len() ==> #[trigger] alphabet@[a] != #[trigger] alphabet@[c],
                    forall|i2: int, j2: int|
                        0 <= i2 < i && 0 <= j2 < self.states@[i2].unicode_transitions@.len() ==> alphabet@.contains(
                            #[trigger] self.states@[i2].unicode_transitions@[j2].0,
                        ),
                    forall|j2: int| 0 <= j2 < j ==> alphabet@.contains(#[trigger] uni@[j2].0),
                    forall|x: int| 128 <= x < alphabet@.len() ==> self.cached_char(#[trigger] alphabet@[x]),
                decreases uni@.len() - j,
            {
                let ch = uni[j].0;
                let ghost before = alphabet@;
                if !char_vec_contains(&alphabet, ch) {
                    alphabet.push(ch);
                    proof {
                        assert(alphabet@[before.len() as int] == self.states@[i as int].unicode_transitions@[j as int].0);
                        assert(self.cached_char(ch));
                        assert forall|x: int| 128 <= x < alphabet@.len() implies self.cached_char(#[trigger] alphabet@[x]) by {
                            if x < before.len() {
                                assert(alphabet@[x] == before[x]);
                            }
                        }
                        assert forall|a: int, c: int| 0 <= a < c < alphabet@.len() implies #[trigger] alphabet@[a]
                            != #[trigger] alphabet@[c] by {
                            if c == before.len() {
                                assert(alphabet@[a] == before[a]);
                                assert(before.contains(before[a]));
                            }
                        }
                        assert forall|y: char| before.contains(y) implies alphabet@.contains(y) by {
                            let w = choose|w: int| 0 <= w < before.len() && before[w] == y;
                            assert(alphabet@[w] == y);
                        }
                        assert(alphabet@.contains(alphabet@[before.len() as int]));
                    }
                }
                j = j + 1;
            }
            i = i + 1;
        }
        alphabet
    }

    /// Blocks of states with equal (accepting, start-anchor, end-anchor) flags.
    fn initial_partition(&self) -> (r: (Vec<usize>, usize))
        requires
            self.wf(),
        ensures
            exists|rep: Seq<int>| partition_ok(r.0@, r.1 as int, rep, self.states@.len() as int),
            r.1 >= 1,
    {
        let n = self.states.len();
        let mut partition: Vec<usize> = Vec::new();
        let mut keys: Vec<(bool, bool, bool)> = Vec::new();
        let ghost mut rep: Seq<int> = Seq::empty();
        let mut i: usize = 0;
        while i < n
            invariant
                n == self.states@.len(),
                0 <= i <= n,
                partition@.len() == i,
                keys@.len() <= i,
                i > 0 ==> keys@.len() >= 1,
                rep.len() == keys@.len(),
                forall|j: int| 0 <= j < i ==> #[trigger] partition@[j] < keys@.len(),
                forall|p: int| 0 <= p < keys@.len() ==> 0 <= #[trigger] rep[p] < i && partition@[rep[p]] == p,
            decreases n - i,
        {
            let st = &self.states[i];
            let key = (st.is_accept, st.has_start_anchor, st.has_end_anchor);
            let mut p: usize = 0;
            while p < keys.len() && !flags_eq(keys[p], key)
                invariant
                    0 <= p <= keys@.len(),
                decreases keys@.len() - p,
            {
                p = p + 1;
            }
            if p == keys.len() {
                keys.push(key);
                proof {
                    rep = rep.push(i as int);
                }
            }
            partition.push(p);
            i = i + 1;
        }
        proof {
            assert(partition_ok(partition@, keys@.len() as int, rep, n as int));
        }
        let np = keys.len();
        let r = (partition, np);
        proof {
            assert(partition_ok(r.0@, r.1 as int, rep, n as int));
        }
        r
    }

    /// The block of the state that `t` leads to.
    fn block_of(partition: &Vec<usize>, t: Option<u32>) -> (r: Option<usize>)
        requires
            t matches Some(x) ==> x < partition@.len(),
        ensures
            r == match t {
                Some(x) => Some(partition@[x as int]),
                None => None,
            },
    {
        match t {
            Some(x) => Some(partition[x as usize]),
            None => None,
        }
    }

    /// States `i` and `j` move on `ch` into the same block of `part` (or
    /// both have no live cached transition).
    spec fn moves_alike(&self, part: Seq<usize>, i: int, j: int, ch: char) -> bool {
        block_after(part, self.cached_target(i, ch)) == block_after(part, self.cached_target(j, ch))
    }

    /// All states of block `p` of `part` move alike on every character of `alphabet`.
    spec fn block_stable(&self, part: Seq<usize>, p: int, alphabet: Seq<char>) -> bool {
        forall|i: int, j: int, c: int|
            0 <= i < part.len() && 0 <= j < part.len() && 0 <= c < alphabet.len() && #[trigger] part[i] == p && #[trigger] part[j] == p
                ==> self.moves_alike(part, i, j, #[trigger] alphabet[c])
    }

    /// Splits blocks until all states of a block move, on every character of
    /// `alphabet`, into the same blocks.
    fn refine_partition(&self, alphabet: &Vec<char>, partition: &mut Vec<usize>, np0: usize) -> (r: usize)
        requires
            self.wf(),
            exists|rep: Seq<int>| partition_ok(old(partition)@, np0 as int, rep, self.states@.len() as int),
        ensures
            exists|rep: Seq<int>| partition_ok(final(partition)@, r as int, rep, self.states@.len() as int),
            np0 <= r,
            forall|i: int, j: int|
                0 <= i < self.states@.len() && 0 <= j < self.states@.len() && #[trigger] final(partition)@[i]
                    == #[trigger] final(partition)@[j] ==> old(partition)@[i] == old(partition)@[j],
            forall|i: int, j: int, c: int|
                0 <= i < self.states@.len() && 0 <= j < self.states@.len() && 0 <= c < alphabet@.len() && #[trigger] final(
                partition)@[i] == #[trigger] final(partition)@[j] ==> self.moves_alike(final(partition)@, i, j, #[trigger] alphabet@[c]),
    {
        let n = self.states.len();
        let ghost orig = partition@;
        let ghost mut rep: Seq<int> = choose|rep: Seq<int>| partition_ok(partition@, np0 as int, rep, n as int);
        let mut num_partitions = np0;
        proof {
            lemma_blocks_bounded(partition@, np0 as int, rep, n as int);
        }
        let mut changed = true;
        while changed
            invariant
                self.wf(),
                n == self.states@.len(),
                np0 <= num_partitions <= n,
                partition_ok(partition@, num_partitions as int, rep, n as int),
                orig == old(partition)@,
                forall|i: int, j: int| 0 <= i < n && 0 <= j < n && #[trigger] partition@[i] == #[trigger] partition@[j] ==> orig[i] == orig[j],
                !changed ==> forall|pp: int| 0 <= pp < num_partitions ==> #[trigger] self.block_stable(partition@, pp, alphabet@),
            decreases n - num_partitions, (if changed { 1int } else { 0int }),
        {
            changed = false;
            let np_round = num_partitions;
            let ghost round_part = partition@;
            let mut p: usize = 0;
            while p < np_round
                invariant
                    self.wf(),
                    n == self.states@.len(),
                    np_round <= num_partitions <= n,
                    partition_ok(partition@, num_partitions as int, rep, n as int),
                    changed ==> num_partitions > np_round,
                    0 <= p <= np_round,
                    forall|i: int, j: int| 0 <= i < n && 0 <= j < n && #[trigger] partition@[i] == #[trigger] partition@[j] ==> orig[i] == orig[j],
                    !changed ==> num_partitions == np_round && partition@ == round_part,
                    !changed ==> forall|pp: int| 0 <= pp < p ==> #[trigger] self.block_stable(partition@, pp, alphabet@),
                decreases np_round - p,
            {
                let mut states_in_p: Vec<usize> = Vec::new();
                let mut i: usize = 0;
                while i < n
                    invariant
                        n == partition@.len(),
                        0 <= i <= n,
                        forall|k: int| 0 <= k < states_in_p@.len() ==> #[trigger] states_in_p@[k] < i && partition@[states_in_p@[k] as int] == p,
                        forall|k1: int, k2: int| 0 <= k1 < k2 < states_in_p@.len() ==> states_in_p@[k1] < states_in_p@[k2],
                        forall|i2: int| 0 <= i2 < i && partition@[i2] == p ==> states_in_p@.contains(i2 as usize),
                    decreases n - i,
                {
                    let ghost before = states_in_p@;
                    if partition[i] == p {
                        states_in_p.push(i);
                        proof {
                            assert(states_in_p@[before.len() as int] == i);
                            assert forall|x: usize| before.contains(x) implies states_in_p@.contains(x) by {
                                let w = choose|w: int| 0 <= w < before.len() && before[w] == x;
                                assert(states_in_p@[w] == x);
                            }
                        }
                    }
                    i = i + 1;
                }
                if states_in_p.len() > 1 {
                    let first = states_in_p[0];
                    let mut to_split: Vec<usize> = Vec::new();
                    let mut k: usize = 1;
                    while k < states_in_p.len()
                        invariant
                            self.wf(),
                            n == self.states@.len(),
                            n == partition@.len(),
                            first < n,
                            first == states_in_p@[0],
                            1 <= k <= states_in_p@.len(),
                            forall|q: int| 0 <= q < states_in_p@.len() ==> #[trigger] states_in_p@[q] < n && partition@[states_in_p@[q] as int] == p,
                            forall|q1: int, q2: int| 0 <= q1 < q2 < states_in_p@.len() ==> states_in_p@[q1] < states_in_p@[q2],
                            forall|q: int| 0 <= q < to_split@.len() ==> #[trigger] to_split@[q] < n && partition@[to_split@[q] as int] == p
                                && to_split@[q] != first,
                            to_split@.len() < k,
                            forall|k2: int, c2: int|
                                1 <= k2 < k && to_split@.len() == 0 && 0 <= c2 < alphabet@.len() ==> self.moves_alike(
                                    partition@,
                                    first as int,
                                    #[trigger] states_in_p@[k2] as int,
                                    #[trigger] alphabet@[c2],
                                ),
                        decreases states_in_p@.len() - k,
                    {
                        let state_idx = states_in_p[k];
                        let mut same = true;
                        let mut c: usize = 0;
                        while c < alphabet.len() && same
                            invariant
                                self.wf(),
                                n == self.states@.len(),
                                n == partition@.len(),
                                first < n,
                                state_idx < n,
                                0 <= c <= alphabet@.len(),
                                same ==> forall|c2: int| 0 <= c2 < c ==> self.moves_alike(partition@, first as int, state_idx as int, #[trigger] alphabet@[c2]),
                            decreases alphabet@.len() - c,
                        {
                            let ch = alphabet[c];
                            let t1 = self.get_transition(first, ch);
                            let t2 = self.get_transition(state_idx, ch);
                            let p1 = Self::block_of(partition, t1);
                            let p2 = Self::block_of(partition, t2);
                            let differ = match (p1, p2) {
                                (Some(a), Some(b)) => a != b,
                                (None, None) => false,
                                _ => true,
                            };
                            if differ {
                                same = false;
                            } else {
                                assert(self.moves_alike(partition@, first as int, state_idx as int, ch));
                            }
                            c = c + 1;
                        }
                        if same {
                            assert(c == alphabet@.len());
                        }
                        if !same {
                            proof {
                                assert(states_in_p@[0] < states_in_p@[k as int]);
                            }
                            to_split.push(state_idx);
                        }
                        k = k + 1;
                    }
                    if to_split.len() > 0 {
                        let new_partition = num_partitions;
                        let ghost old_part = partition@;
                        proof {
                            assert(old_part[first as int] == p);
                            assert(0 <= rep[p as int] < n);
                        }
                        let mut q: usize = 0;
                        while q < to_split.len()
                            invariant
                                n == partition@.len(),
                                0 <= q <= to_split@.len(),
                                new_partition == num_partitions,
                                num_partitions < n + 1,
                                forall|x: int| 0 <= x < to_split@.len() ==> #[trigger] to_split@[x] < n && old_part[to_split@[x] as int] == p
                                    && to_split@[x] != first,
                                forall|j: int| 0 <= j < n ==> (#[trigger] partition@[j] == old_part[j] || (partition@[j] == new_partition
                                    && old_part[j] == p && j != first)),
                                forall|x: int| 0 <= x < q ==> #[trigger] partition@[to_split@[x] as int] == new_partition,
                            decreases to_split@.len() - q,
                        {
                            partition.set(to_split[q], new_partition);
                            q = q + 1;
                        }
                        proof {
                            let moved = to_split@[0] as int;
                            assert(partition@[moved] == new_partition);
                            let rep2 = rep.update(p as int, first as int).push(moved);
                            assert forall|pp: int| 0 <= pp < num_partitions + 1 implies 0 <= #[trigger] rep2[pp] < n
                                && partition@[rep2[pp]] == pp by {
                                if pp == p {
                                    assert(partition@[first as int] == old_part[first as int]);
                                } else if pp < num_partitions {
                                    assert(rep2[pp] == rep[pp]);
                                    assert(old_part[rep[pp]] == pp);
                                    assert(partition@[rep[pp]] == old_part[rep[pp]]);
                                }
                            }
                            assert forall|j: int| 0 <= j < n implies #[trigger] partition@[j] < num_partitions + 1 by {
                                assert(old_part[j] < num_partitions);
                            }
                            rep = rep2;
                            assert(partition_ok(partition@, num_partitions + 1, rep, n as int));
                            lemma_blocks_bounded(partition@, num_partitions + 1, rep, n as int);
                        }
                        num_partitions = num_partitions + 1;
                        changed = true;
                        proof {
                            assert forall|i: int, j: int|
                                0 <= i < n && 0 <= j < n && #[trigger] partition@[i] == #[trigger] partition@[j] implies orig[i] == orig[j] by {
                                assert(old_part[i] < new_partition && old_part[j] < new_partition);
                            }
                        }
                    }
                    if !changed {
                        proof {
                            assert forall|k2: int, c2: int|
                                0 <= k2 < states_in_p@.len() && 0 <= c2 < alphabet@.len() implies self.moves_alike(
                                partition@,
                                states_in_p@[0] as int,
                                #[trigger] states_in_p@[k2] as int,
                                #[trigger] alphabet@[c2],
                            ) by {
                                if k2 == 0 {
                                } else {
                                    assert(to_split@.len() == 0);
                                }
                            }
                            self.lemma_block_stable(partition@, p as int, alphabet@, states_in_p@);
                        }
                    }
                } else {
                    proof {
                        if !changed {
                            assert forall|k2: int, c2: int|
                                0 <= k2 < states_in_p@.len() && 0 <= c2 < alphabet@.len() implies self.moves_alike(
                                partition@,
                                states_in_p@[0] as int,
                                #[trigger] states_in_p@[k2] as int,
                                #[trigger] alphabet@[c2],
                            ) by {
                                assert(k2 == 0);
                            }
                            self.lemma_block_stable(partition@, p as int, alphabet@, states_in_p@);
                        }
                    }
                }
                p = p + 1;
            }
        }
        proof {
            assert forall|i: int, j: int, c: int|
                0 <= i < n && 0 <= j < n && 0 <= c < alphabet@.len() && #[trigger] partition@[i] == #[trigger] partition@[j]
                    implies self.moves_alike(partition@, i, j, #[trigger] alphabet@[c]) by {
                assert(partition@[i] < num_partitions);
                assert(self.block_stable(partition@, partition@[i] as int, alphabet@));
            }
        }
        num_partitions
    }

    /// A block all of whose members move alike with its first listed member
    /// is stable.
    proof fn lemma_block_stable(&self, part: Seq<usize>, p: int, alphabet: Seq<char>, members: Seq<usize>)
        requires
            part.len() <= usize::MAX,
            forall|i: int| 0 <= i < part.len() && #[trigger] part[i] == p ==> members.contains(i as usize),
            forall|k: int, c: int|
                0 <= k < members.len() && 0 <= c < alphabet.len() ==> self.moves_alike(
                    part,
                    members[0] as int,
                    #[trigger] members[k] as int,
                    #[trigger] alphabet[c],
                ),
        ensures
            self.block_stable(part, p, alphabet),
    {
        assert forall|i: int, j: int, c: int|
            0 <= i < part.len() && 0 <= j < part.len() && 0 <= c < alphabet.len() && #[trigger] part[i] == p && #[trigger] part[j] == p
                implies self.moves_alike(part, i, j, #[trigger] alphabet[c]) by {
            assert(members.contains(i as usize));
            assert(members.contains(j as usize));
            let ki = choose|k: int| 0 <= k < members.len() && members[k] == i as usize;
            let kj = choose|k: int| 0 <= k < members.len() && members[k] == j as usize;
            assert(members[ki] as int == i);
            assert(members[kj] as int == j);
            assert(self.moves_alike(part, members[0] as int, members[ki] as int, alphabet[c]));
            assert(self.moves_alike(part, members[0] as int, members[kj] as int, alphabet[c]));
        }
    }
}


/// The block the transition target `t` lies in.
pub open spec fn block_after(part: Seq<usize>, t: Option<u32>) -> Option<usize> {
    match t {
        Some(x) => Some(part[x as int]),
        None => None,
    }
}

/// Some state of block `p`.
fn block_member(partition: &Vec<usize>, p: usize) -> (r: usize)
    requires
        exists|i: int| 0 <= i < partition@.len() && partition@[i] == p,
    ensures
        r < partition@.len(),
        partition@[r as int] == p,
{
    let mut i: usize = 0;
    while i < partition.len()
        invariant
            0 <= i <= partition@.len(),
            forall|j: int| 0 <= j < i ==> partition@[j] != p,
        decreases partition@.len() - i,
    {
        if partition[i] == p {
            return i;
        }
        i = i + 1;
    }
    proof {
        let w = choose|w: int| 0 <= w < partition@.len() && partition@[w] == p;
        assert(partition@[w] != p);
    }
    0
}

impl Dfa {
    /// The state standing for block `p` of a minimized automaton: a copy of
    /// a member of the block, its transitions redirected to blocks.
    fn block_state(&self, partition: &Vec<usize>, p: usize, np: usize, Ghost(rep): Ghost<Seq<int>>) -> (r: (DfaState, usize))
        requires
            self.wf(),
            partition_ok(partition@, np as int, rep, self.states@.len() as int),
            p < np,
        ensures
            r.1 < self.states@.len(),
            partition@[r.1 as int] == p,
            self.state_wf_n(r.0, np as int),
            r.0.nfa_states@ == self.states@[r.1 as int].nfa_states@,
            forall|b: int| 0 <= b < 128 && #[trigger] self.states@[r.1 as int].ascii_transitions.table@[b]
                != TRANS_UNKNOWN ==> r.0.ascii_transitions.table@[b] != TRANS_UNKNOWN,
    {
        proof {
            assert(0 <= rep[p as int] < self.states@.len() && partition@[rep[p as int]] == p);
            lemma_blocks_bounded(partition@, np as int, rep, self.states@.len() as int);
        }
        let repr = block_member(partition, p);
        assert(self.state_wf(self.states@[repr as int]));
        let old_state = &self.states[repr];
        let n = self.states.len();
        let mut table: Vec<u32> = Vec::new();
        let mut b: u8 = 0;
        while b < 128
            invariant
                0 <= b <= 128,
                n == self.states@.len(),
                n <= MAX_STATES,
                np <= n,
                partition_ok(partition@, np as int, rep, n as int),
                old_state.ascii_transitions.table@.len() == 128,
                forall|x: int| 0 <= x < 128 ==> #[trigger] old_state.ascii_transitions.table@[x] == TRANS_UNKNOWN
                    || old_state.ascii_transitions.table@[x] == TRANS_DEAD || old_state.ascii_transitions.table@[x] < n,
                table@.len() == b,
                forall|x: int| 0 <= x < b ==> (#[trigger] table@[x] == TRANS_UNKNOWN) == (old_state.ascii_transitions.table@[x]
                    == TRANS_UNKNOWN),
                forall|x: int| 0 <= x < b ==> #[trigger] table@[x] == TRANS_UNKNOWN || table@[x] == TRANS_DEAD || table@[x] < np,
            decreases 128 - b,
        {
            let t = old_state.ascii_transitions.get(b);
            let nt: u32 = if t == TRANS_UNKNOWN || t == TRANS_DEAD {
                t
            } else {
                proof {
                    assert(partition@[t as int] < np);
                }
                partition[t as usize] as u32
            };
            table.push(nt);
            b = b + 1;
        }
        let mut uni: Vec<(char, u32)> = Vec::new();
        let mut j: usize = 0;
        while j < old_state.unicode_transitions.len()
            invariant
                0 <= j <= old_state.unicode_transitions@.len(),
                n == self.states@.len(),
                n <= MAX_STATES,
                np <= n,
                partition_ok(partition@, np as int, rep, n as int),
                forall|a: int| 0 <= a < old_state.unicode_transitions@.len() ==> (#[trigger] old_state.unicode_transitions@[a]).1
                    == TRANS_DEAD || old_state.unicode_transitions@[a].1 < n,
                keys_unique(uni@),
                forall|a: int| 0 <= a < uni@.len() ==> (#[trigger] uni@[a]).1 == TRANS_DEAD || uni@[a].1 < np,
            decreases old_state.unicode_transitions@.len() - j,
        {
            let (ch, t) = old_state.unicode_transitions[j];
            let nt: u32 = if t == TRANS_DEAD {
                t
            } else {
                proof {
                    assert(old_state.unicode_transitions@[j as int].1 == t);
                    assert(partition@[t as int] < np);
                }
                partition[t as usize] as u32
            };
            let ghost before = uni@;
            unicode_insert(&mut uni, ch, nt);
            proof {
                assert forall|a: int| 0 <= a < uni@.len() implies (#[trigger] uni@[a]).1 == TRANS_DEAD || uni@[a].1 < np by {
                    if uni@[a] != (ch, nt) {
                        let b2 = choose|b2: int| 0 <= b2 < before.len() && #[trigger] before[b2] == uni@[a];
                    }
                }
            }
            j = j + 1;
        }
        let st = DfaState {
            nfa_states: set_copy(&old_state.nfa_states),
            is_accept: old_state.is_accept,
            has_start_anchor: old_state.has_start_anchor,
            has_end_anchor: old_state.has_end_anchor,
            ascii_transitions: AsciiTransitions { table },
            unicode_transitions: uni,
        };
        (st, repr)
    }

    /// Minimizes the automaton by merging states that no character tells
    /// apart (after caching every ASCII transition).  Returns how many
    /// states fewer there are than before the call (0 when there are more).
    pub fn minimize(&mut self) -> (r: usize)
        requires
            old(self).wf(),
        ensures
            final(self).wf(),
            final(self).spec() == old(self).spec(),
            final(self).search_prefilter() == old(self).search_prefilter(),
            final(self).class_plus_kind() == old(self).class_plus_kind(),
            final(self).literal_fast() == old(self).literal_fast(),
            old(self).num_states() <= 1 ==> final(self).num_states() == old(self).num_states(),
            r == if old(self).num_states() > final(self).num_states() {
                (old(self).num_states() - final(self).num_states()) as usize
            } else {
                0usize
            },
            old(self).num_states() > 1 ==> final(self).ascii_complete(),
    {
        let count_before = self.states.len();
        if count_before <= 1 {
            return 0;
        }
        self.complete();
        let alphabet = self.build_alphabet();
        let (mut partition, np0) = self.initial_partition();
        let num_partitions = self.refine_partition(&alphabet, &mut partition, np0);
        let n = self.states.len();
        let ghost rep = choose|rep: Seq<int>| partition_ok(partition@, num_partitions as int, rep, n as int);
        proof {
            lemma_blocks_bounded(partition@, num_partitions as int, rep, n as int);
        }
        if num_partitions == count_before {
            return 0;
        }
        let ghost pre = *self;
        let mut new_states: Vec<DfaState> = Vec::new();
        let mut reprs: Vec<usize> = Vec::new();
        let mut p: usize = 0;
        while p < num_partitions
            invariant
                self.wf(),
                *self == pre,
                self.ascii_complete(),
                n == self.states@.len(),
                1 <= num_partitions <= n,
                partition_ok(partition@, num_partitions as int, rep, n as int),
                0 <= p <= num_partitions,
                new_states@.len() == p,
                reprs@.len() == p,
                forall|q: int| 0 <= q < p ==> #[trigger] reprs@[q] < n && partition@[reprs@[q] as int] == q,
                forall|q: int| 0 <= q < p ==> self.state_wf_n(#[trigger] new_states@[q], num_partitions as int),
                forall|q: int| 0 <= q < p ==> (#[trigger] new_states@[q]).nfa_states@ == self.states@[reprs@[q] as int].nfa_states@,
                forall|q: int, b: int| 0 <= q < p && 0 <= b < 128 ==> #[trigger] new_states@[q].ascii_transitions.table@[b]
                    != TRANS_UNKNOWN,
            decreases num_partitions - p,
        {
            let (st, repr) = self.block_state(&partition, p, num_partitions, Ghost(rep));
            proof {
                assert forall|b: int| 0 <= b < 128 implies #[trigger] st.ascii_transitions.table@[b] != TRANS_UNKNOWN by {
                    assert(self.states@[repr as int].ascii_transitions.table@[b] != TRANS_UNKNOWN);
                }
            }
            new_states.push(st);
            reprs.push(repr);
            p = p + 1;
        }
        proof {
            assert(0 <= rep[partition@[self.start as int] as int] < n);
        }
        let new_start = partition[self.start as usize] as u32;
        let ghost old_states = self.states@;
        self.states = new_states;
        self.start = new_start;
        proof {
            assert(self.spec() == pre.spec());
            assert forall|i: int| 0 <= i < self.states@.len() implies #[trigger] self.state_wf(self.states@[i]) by {
                assert(pre.state_wf_n(new_states@[i], num_partitions as int));
            }
            assert forall|i: int, j: int| 0 <= i < j < self.states@.len() implies (#[trigger] self.states@[i]).nfa_states@
                != (#[trigger] self.states@[j]).nfa_states@ by {
                assert(reprs@[i] != reprs@[j]);
                assert(old_states[reprs@[i] as int].nfa_states@ != old_states[reprs@[j] as int].nfa_states@) by {
                    if reprs@[i] < reprs@[j] {
                        assert(pre.states@[reprs@[i] as int].nfa_states@ != pre.states@[reprs@[j] as int].nfa_states@);
                    } else {
                        assert(pre.states@[reprs@[j] as int].nfa_states@ != pre.states@[reprs@[i] as int].nfa_states@);
                    }
                }
            }
        }
        if count_before > self.states.len() {
            count_before - self.states.len()
        } else {
            0
        }
    }
}

} // verus!
