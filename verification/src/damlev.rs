//! The Damerau-Levenshtein automaton for approximate literal matching:
//! edit limits, automaton states and their transitions.
use vstd::prelude::*;
use crate::nfa::{ascii_lower, is_ascii_char, to_ascii_lower};
use crate::text::{str_to_lowercase, spec_str_lowercase, spec_char_lowercase, decode_text, byte_offset, offsets_of, lemma_offset_strict};

verus! {

/// Calls `char::to_lowercase` and takes the first character it yields (for
/// an ASCII character, its ASCII lowercase form).
#[verifier::external_body]
pub(crate) fn first_lowercase(c: char) -> (r: Option<char>)
    ensures
        r == first_of(spec_char_lowercase(c)),
        is_ascii_char(c) ==> r == Some(ascii_lower(c)),
{
    c.to_lowercase().next()
}

pub open spec fn first_of(s: Seq<char>) -> Option<char> {
    if s.len() == 0 {
        None
    } else {
        Some(s[0])
    }
}

/// The lowercase form of `c`: ASCII folding for ASCII characters, the first
/// character of the Unicode lowercase mapping otherwise (`c` itself when
/// that mapping is empty).
pub open spec fn lower_char(c: char) -> char {
    if is_ascii_char(c) {
        ascii_lower(c)
    } else {
        match first_of(spec_char_lowercase(c)) {
            Some(l) => l,
            None => c,
        }
    }
}

/// The lowercase form of `c`: ASCII folding for ASCII characters, the first
/// character of the Unicode lowercase mapping otherwise.
pub fn to_lower_char(c: char) -> (r: char)
    ensures
        r == lower_char(c),
{
    if (c as u32) < 128 {
        to_ascii_lower(c)
    } else {
        match first_lowercase(c) {
            Some(l) => l,
            None => c,
        }
    }
}

/// Edit operation limits.
#[derive(Clone, Copy, Debug)]
pub struct EditLimits {
    /// Maximum total number of edits.
    pub max_edits: u8,
    /// Maximum number of insertions (`None`: bounded by `max_edits` only).
    pub max_insertions: Option<u8>,
    /// Maximum number of deletions.
    pub max_deletions: Option<u8>,
    /// Maximum number of substitutions.
    pub max_substitutions: Option<u8>,
    /// Maximum number of transpositions.
    pub max_swaps: Option<u8>,
}

impl EditLimits {
    /// Limits with only a maximum total edit count.
    pub fn new(max_edits: u8) -> (r: Self)
        ensures
            r.max_edits == max_edits,
            r.max_insertions is None,
            r.max_deletions is None,
            r.max_substitutions is None,
            r.max_swaps is None,
    {
        EditLimits { max_edits, max_insertions: None, max_deletions: None, max_substitutions: None, max_swaps: None }
    }

    /// Limits for each kind of edit.
    pub fn with_limits(
        max_edits: u8,
        max_insertions: Option<u8>,
        max_deletions: Option<u8>,
        max_substitutions: Option<u8>,
        max_swaps: Option<u8>,
    ) -> (r: Self)
        ensures
            r == (EditLimits { max_edits, max_insertions, max_deletions, max_substitutions, max_swaps }),
    {
        EditLimits { max_edits, max_insertions, max_deletions, max_substitutions, max_swaps }
    }
}

/// A state of the automaton: a position in the pattern and the edits used.
#[derive(Clone, Copy, PartialEq, Eq, Structural, Debug)]
pub struct State {
    /// Position in the pattern.
    pub pos: usize,
    /// Total number of edits used.
    pub total_edits: u8,
    pub insertions: u8,
    pub deletions: u8,
    pub substitutions: u8,
    pub swaps: u8,
    /// The next text character is consumed by a transposition already.
    pub skip_next: bool,
}

impl State {
    /// The state at pattern position `pos` with no edits.
    pub fn new(pos: usize) -> (r: Self)
        ensures
            r == (State {
                pos,
                total_edits: 0,
                insertions: 0,
                deletions: 0,
                substitutions: 0,
                swaps: 0,
                skip_next: false,
            }),
    {
        State { pos, total_edits: 0, insertions: 0, deletions: 0, substitutions: 0, swaps: 0, skip_next: false }
    }

    /// One pattern character matched.
    pub fn advance_match(&self) -> (r: Self)
        requires
            self.pos < usize::MAX,
        ensures
            r == (State { pos: (self.pos + 1) as usize, skip_next: false, ..*self }),
    {
        State { pos: self.pos + 1, skip_next: false, ..*self }
    }

    /// One pattern character substituted.
    pub fn advance_substitution(&self) -> (r: Self)
        requires
            self.pos < usize::MAX,
            self.substitutions < 255,
            self.total_edits < 255,
        ensures
            r == (State {
                pos: (self.pos + 1) as usize,
                substitutions: (self.substitutions + 1) as u8,
                total_edits: (self.total_edits + 1) as u8,
                skip_next: false,
                ..*self
            }),
    {
        State {
            pos: self.pos + 1,
            substitutions: self.substitutions + 1,
            total_edits: self.total_edits + 1,
            skip_next: false,
            ..*self
        }
    }

    /// One pattern character deleted.
    pub fn advance_deletion(&self) -> (r: Self)
        requires
            self.pos < usize::MAX,
            self.deletions < 255,
            self.total_edits < 255,
        ensures
            r == (State {
                pos: (self.pos + 1) as usize,
                deletions: (self.deletions + 1) as u8,
                total_edits: (self.total_edits + 1) as u8,
                skip_next: false,
                ..*self
            }),
    {
        State { pos: self.pos + 1, deletions: self.deletions + 1, total_edits: self.total_edits + 1, skip_next: false, ..*self }
    }

    /// One text character inserted.
    pub fn advance_insertion(&self) -> (r: Self)
        requires
            self.insertions < 255,
            self.total_edits < 255,
        ensures
            r == (State {
                insertions: (self.insertions + 1) as u8,
                total_edits: (self.total_edits + 1) as u8,
                skip_next: false,
                ..*self
            }),
    {
        State { insertions: self.insertions + 1, total_edits: self.total_edits + 1, skip_next: false, ..*self }
    }

    /// Two adjacent characters swapped: two pattern characters consumed
    /// for one edit, and the next text character skipped.
    pub fn advance_swap(&self) -> (r: Self)
        requires
            self.pos < usize::MAX - 1,
            self.swaps < 255,
            self.total_edits < 255,
        ensures
            r == (State {
                pos: (self.pos + 2) as usize,
                swaps: (self.swaps + 1) as u8,
                total_edits: (self.total_edits + 1) as u8,
                skip_next: true,
                ..*self
            }),
    {
        State { pos: self.pos + 2, swaps: self.swaps + 1, total_edits: self.total_edits + 1, skip_next: true, ..*self }
    }
}

/// A live state together with where its match started.
#[derive(Clone, Copy, PartialEq, Eq, Debug)]
pub struct ActiveState {
    pub state: State,
    pub start_byte: usize,
    pub start_char: usize,
}

/// The Damerau-Levenshtein automaton for one pattern.
pub struct DamLevNfa {
    pattern: String,
    pattern_chars: Vec<char>,
    limits: EditLimits,
    case_insensitive: bool,
    /// How many states are kept after pruning.
    beam_width: usize,
}

/// Room left under an optional per-kind limit.
pub open spec fn under(limit: Option<u8>, used: u8) -> bool {
    match limit {
        Some(max) => used < max,
        None => true,
    }
}

impl DamLevNfa {
    pub closed spec fn spec_pattern(&self) -> Seq<char> {
        self.pattern@
    }

    pub closed spec fn spec_pattern_chars(&self) -> Seq<char> {
        self.pattern_chars@
    }

    pub closed spec fn spec_limits(&self) -> EditLimits {
        self.limits
    }

    pub closed spec fn spec_beam_width(&self) -> usize {
        self.beam_width
    }

    /// An automaton for `pattern` (lowercased when case-insensitive).  The
    /// beam width is `2 * (len + 1) * (max_edits + 1)`, kept within `32..=256`.
    pub fn new(pattern: &str, limits: EditLimits, case_insensitive: bool) -> (r: Self)
        ensures
            r.spec_pattern() == pattern@,
            r.spec_pattern_chars() == if case_insensitive {
                spec_str_lowercase(pattern@)
            } else {
                pattern@
            },
            r.spec_limits() == limits,
            r.spec_beam_width() == clamp_beam(2 * ((r.spec_pattern_chars().len() + 1) * (limits.max_edits + 1))),
    {
        let pattern_chars = if case_insensitive {
            let lowered = str_to_lowercase(pattern);
            decode_text(lowered.as_str()).0
        } else {
            decode_text(pattern).0
        };
        let n = pattern_chars.len() as u128;
        let k = limits.max_edits as u128;
        assert((n + 1) * (k + 1) <= 0x1_0000_0000_0000_0000 * 256) by (nonlinear_arith)
            requires
                n < 0x1_0000_0000_0000_0000,
                k < 256,
        ;
        let width: u128 = 2 * ((n + 1) * (k + 1));
        let beam_width: usize = if width < 32 {
            32
        } else if width > 256 {
            256
        } else {
            width as usize
        };
        DamLevNfa { pattern: pattern.to_owned(), pattern_chars, limits, case_insensitive, beam_width }
    }

    /// The number of pattern characters the automaton matches (after
    /// lowercasing when case-insensitive).
    pub fn pattern_char_count(&self) -> (r: usize)
        ensures
            r == self.spec_pattern_chars().len(),
    {
        self.pattern_chars.len()
    }

    /// The edit limits.
    pub fn limits(&self) -> (r: EditLimits)
        ensures
            r == self.spec_limits(),
    {
        self.limits
    }

    /// The pattern as given.
    pub fn pattern(&self) -> (r: &str)
        ensures
            r@ == self.spec_pattern(),
    {
        self.pattern.as_str()
    }

    /// Whether one more insertion is allowed.
    pub fn can_insert(&self, state: &State) -> (r: bool)
        ensures
            r == (state.total_edits < self.spec_limits().max_edits && under(self.spec_limits().max_insertions, state.insertions)),
    {
        if state.total_edits >= self.limits.max_edits {
            return false;
        }
        match self.limits.max_insertions {
            Some(max) => state.insertions < max,
            None => true,
        }
    }

    /// Whether one more deletion is allowed.
    pub fn can_delete(&self, state: &State) -> (r: bool)
        ensures
            r == (state.total_edits < self.spec_limits().max_edits && under(self.spec_limits().max_deletions, state.deletions)),
    {
        if state.total_edits >= self.limits.max_edits {
            return false;
        }
        match self.limits.max_deletions {
            Some(max) => state.deletions < max,
            None => true,
        }
    }

    /// Whether one more substitution is allowed.
    pub fn can_substitute(&self, state: &State) -> (r: bool)
        ensures
            r == (state.total_edits < self.spec_limits().max_edits && under(
                self.spec_limits().max_substitutions,
                state.substitutions,
            )),
    {
        if state.total_edits >= self.limits.max_edits {
            return false;
        }
        match self.limits.max_substitutions {
            Some(max) => state.substitutions < max,
            None => true,
        }
    }

    /// Whether one more transposition is allowed.
    pub fn can_swap(&self, state: &State) -> (r: bool)
        ensures
            r == (state.total_edits < self.spec_limits().max_edits && under(self.spec_limits().max_swaps, state.swaps)),
    {
        if state.total_edits >= self.limits.max_edits {
            return false;
        }
        match self.limits.max_swaps {
            Some(max) => state.swaps < max,
            None => true,
        }
    }
}

/// The edit counters add up to the total.
pub open spec fn state_ok(s: State) -> bool {
    s.insertions + s.deletions + s.substitutions + s.swaps == s.total_edits
}

/// The key under which an expanded state is remembered.
pub open spec fn seen_has(seen: Seq<(State, usize)>, key: (State, usize)) -> bool {
    exists|k: int| 0 <= k < seen.len() && #[trigger] seen[k] == key
}

fn seen_contains(seen: &Vec<(State, usize)>, key: (State, usize)) -> (r: bool)
    ensures
        r == seen_has(seen@, key),
{
    let mut k: usize = 0;
    while k < seen.len()
        invariant
            0 <= k <= seen@.len(),
            forall|j: int| 0 <= j < k ==> seen@[j] != key,
        decreases seen@.len() - k,
    {
        let entry = seen[k];
        if entry.0 == key.0 && entry.1 == key.1 {
            return true;
        }
        k = k + 1;
    }
    false
}

/// Work left for the deletion closure from index `i`: each state can still
/// produce a chain of at most `max - total_edits` deletions.
pub open spec fn closure_potential(states: Seq<ActiveState>, i: int, max: u8) -> nat
    decreases states.len() - i,
{
    if i < 0 || i >= states.len() {
        0
    } else {
        let t = states[i].state.total_edits;
        let left: nat = if t < max {
            (max - t) as nat
        } else {
            0
        };
        left + 1 + closure_potential(states, i + 1, max)
    }
}

pub proof fn lemma_potential_push(states: Seq<ActiveState>, i: int, max: u8, x: ActiveState)
    requires
        0 <= i <= states.len(),
    ensures
        closure_potential(states.push(x), i, max) == closure_potential(states, i, max) + closure_potential(seq![x], 0, max),
    decreases states.len() - i,
{
    if i < states.len() {
        lemma_potential_push(states, i + 1, max, x);
        assert(states.push(x)[i] == states[i]);
    } else {
        assert(states.push(x)[i] == x);
        assert(closure_potential(states.push(x), i + 1, max) == 0);
        assert(closure_potential(seq![x], 1, max) == 0);
    }
}

/// The state reached from `a` by deleting the next pattern character.
pub open spec fn deletion_of(a: ActiveState) -> ActiveState {
    ActiveState {
        state: State {
            pos: (a.state.pos + 1) as usize,
            deletions: (a.state.deletions + 1) as u8,
            total_edits: (a.state.total_edits + 1) as u8,
            skip_next: false,
            ..a.state
        },
        ..a
    }
}

impl DamLevNfa {
    /// A deletion is possible from `st`: a pattern character is left and the
    /// limits allow one more deletion.
    pub open spec fn may_delete(&self, st: State) -> bool {
        &&& st.pos < self.spec_pattern_chars().len()
        &&& st.total_edits < self.spec_limits().max_edits
        &&& under(self.spec_limits().max_deletions, st.deletions)
    }

    /// `v[j]` is the deletion successor of an earlier state `v[q]`, `lo <= q`.
    pub open spec fn deletion_parent(&self, v: Seq<ActiveState>, lo: int, j: int) -> bool {
        exists|q: int| #![trigger v[q]] lo <= q < j && v[j] == deletion_of(v[q]) && self.may_delete(v[q].state)
    }

    /// The deletion closure as the automaton runs it, from index `i` on:
    /// each state that may delete adds its deletion successor at the end,
    /// unless the successor's key is already in `seen`.
    pub open spec fn closure_run(&self, states: Seq<ActiveState>, i: int, seen: Seq<(State, usize)>) -> (Seq<
        ActiveState,
    >, Seq<(State, usize)>)
        decreases closure_potential(states, i, self.spec_limits().max_edits),
    {
        if i < 0 || i >= states.len() {
            (states, seen)
        } else {
            let a = states[i];
            if self.may_delete(a.state) {
                let key = (deletion_of(a).state, a.start_byte);
                if seen_has(seen, key) {
                    self.closure_run(states, i + 1, seen)
                } else {
                    proof {
                        let max = self.spec_limits().max_edits;
                        let x = deletion_of(a);
                        lemma_potential_push(states, i + 1, max, x);
                        assert(closure_potential(seq![x], 1, max) == 0);
                    }
                    self.closure_run(states.push(deletion_of(a)), i + 1, seen.push(key))
                }
            } else {
                self.closure_run(states, i + 1, seen)
            }
        }
    }

    /// Adds the deletion successors of `states[start_idx..]` (and of the
    /// states so added), skipping those already in `seen`.
    pub fn epsilon_closure_from(&self, states: &mut Vec<ActiveState>, start_idx: usize, seen: &mut Vec<(State, usize)>)
        requires
            forall|j: int| start_idx <= j < old(states)@.len() ==> state_ok(#[trigger] old(states)@[j].state),
        ensures
            final(states)@.len() >= old(states)@.len(),
            final(states)@.subrange(0, old(states)@.len() as int) == old(states)@,
            forall|j: int|
                old(states)@.len() <= j < final(states)@.len() ==> #[trigger] self.deletion_parent(final(states)@, start_idx as int, j),
            forall|k: int| #![trigger final(seen)@[k]] 0 <= k < old(seen)@.len() ==> final(seen)@[k] == old(seen)@[k],
            final(seen)@.len() >= old(seen)@.len(),
            forall|j: int|
                start_idx <= j < final(states)@.len() && (#[trigger] final(states)@[j]).state.pos < self.spec_pattern_chars().len()
                    && final(states)@[j].state.total_edits < self.spec_limits().max_edits && under(
                    self.spec_limits().max_deletions,
                    final(states)@[j].state.deletions,
                ) ==> seen_has(
                    final(seen)@,
                    (
                        State {
                            pos: (final(states)@[j].state.pos + 1) as usize,
                            deletions: (final(states)@[j].state.deletions + 1) as u8,
                            total_edits: (final(states)@[j].state.total_edits + 1) as u8,
                            skip_next: false,
                            ..final(states)@[j].state
                        },
                        final(states)@[j].start_byte,
                    ),
                ),
            (final(states)@, final(seen)@) == self.closure_run(old(states)@, start_idx as int, old(seen)@),
    {
        let ghost orig = states@;
        let ghost orig_seen = seen@;
        let mut i: usize = start_idx;
        let max = self.limits.max_edits;
        while i < states.len()
            invariant
                start_idx <= i,
                states@.len() >= orig.len(),
                states@.subrange(0, orig.len() as int) == orig,
                seen@.len() >= orig_seen.len(),
                forall|k: int| #![trigger seen@[k]] 0 <= k < orig_seen.len() ==> seen@[k] == orig_seen[k],
                max == self.spec_limits().max_edits,
                self.closure_run(orig, start_idx as int, orig_seen) == self.closure_run(states@, i as int, seen@),
                forall|j: int| start_idx <= j < states@.len() ==> state_ok(#[trigger] states@[j].state),
                forall|j: int| orig.len() <= j < states@.len() ==> #[trigger] self.deletion_parent(states@, start_idx as int, j),
                forall|j: int|
                    start_idx <= j < i && j < states@.len() && (#[trigger] states@[j]).state.pos < self.spec_pattern_chars().len()
                        && states@[j].state.total_edits < max && under(self.spec_limits().max_deletions, states@[j].state.deletions)
                        ==> seen_has(
                        seen@,
                        (
                            State {
                                pos: (states@[j].state.pos + 1) as usize,
                                deletions: (states@[j].state.deletions + 1) as u8,
                                total_edits: (states@[j].state.total_edits + 1) as u8,
                                skip_next: false,
                                ..states@[j].state
                            },
                            states@[j].start_byte,
                        ),
                    ),
            decreases closure_potential(states@, i as int, max),
        {
            let active = states[i];
            let state = active.state;
            let ghost before = states@;
            let ghost seen_before = seen@;
            proof {
                assert(before[i as int] == active);
            }
            if state.pos < self.pattern_chars.len() && self.can_delete(&state) {
                let new_state = state.advance_deletion();
                let key = (new_state, active.start_byte);
                assert(new_state == deletion_of(active).state);
                if !seen_contains(seen, key) {
                    seen.push(key);
                    states.push(ActiveState { state: new_state, start_byte: active.start_byte, start_char: active.start_char });
                    proof {
                        let x = states@[before.len() as int];
                        lemma_potential_push(before, i + 1, max, x);
                        assert(closure_potential(seq![x], 1, max) == 0);
                        assert(closure_potential(seq![x], 0, max) == (max - state.total_edits) as nat);
                        assert(closure_potential(before, i as int, max) == (max - state.total_edits) as nat + 1 + closure_potential(before, i + 1, max));
                        assert(states@[i as int] == before[i as int]);
                        assert(seen@[seen_before.len() as int] == key);
                        assert(state_ok(x.state));
                        assert forall|j: int| start_idx <= j < states@.len() implies state_ok(#[trigger] states@[j].state) by {
                            if j < before.len() {
                                assert(states@[j] == before[j]);
                            }
                        }
                        assert(x == deletion_of(states@[i as int]));
                        assert forall|j: int| orig.len() <= j < states@.len() implies #[trigger] self.deletion_parent(
                            states@,
                            start_idx as int,
                            j,
                        ) by {
                            if j < before.len() {
                                assert(self.deletion_parent(before, start_idx as int, j));
                                let q = choose|q: int|
                                    #![trigger before[q]]
                                    start_idx <= q < j && before[j] == deletion_of(before[q]) && self.may_delete(before[q].state);
                                assert(states@[j] == before[j]);
                                assert(states@[q] == before[q]);
                            } else {
                                assert(states@[j] == deletion_of(states@[i as int]));
                            }
                        }
                    }
                } else {
                    proof {
                        assert(states@ == before);
                    }
                }
                proof {
                    assert(seen_has(seen@, key));
                    assert forall|j: int|
                        start_idx <= j < i && j < states@.len() && (#[trigger] states@[j]).state.pos < self.spec_pattern_chars().len()
                            && states@[j].state.total_edits < max && under(self.spec_limits().max_deletions, states@[j].state.deletions)
                            implies seen_has(
                            seen@,
                            (
                                State {
                                    pos: (states@[j].state.pos + 1) as usize,
                                    deletions: (states@[j].state.deletions + 1) as u8,
                                    total_edits: (states@[j].state.total_edits + 1) as u8,
                                    skip_next: false,
                                    ..states@[j].state
                                },
                                states@[j].start_byte,
                            ),
                        ) by {
                        assert(states@[j] == before[j]);
                        let kk = choose|kk: int| 0 <= kk < seen_before.len() && #[trigger] seen_before[kk] == (
                            State {
                                pos: (before[j].state.pos + 1) as usize,
                                deletions: (before[j].state.deletions + 1) as u8,
                                total_edits: (before[j].state.total_edits + 1) as u8,
                                skip_next: false,
                                ..before[j].state
                            },
                            before[j].start_byte,
                        );
                        assert(seen@[kk] == seen_before[kk]);
                    }
                    assert forall|k: int| #![trigger seen@[k]] 0 <= k < orig_seen.len() implies seen@[k] == orig_seen[k] by {
                        assert(seen@[k] == seen_before[k]);
                    }
                    assert(states@.subrange(0, orig.len() as int) =~= before.subrange(0, orig.len() as int));
                }
            }
            i = i + 1;
        }
    }

    /// The deletion closure of all of `states`.
    pub fn epsilon_closure(&self, states: &mut Vec<ActiveState>, seen: &mut Vec<(State, usize)>)
        requires
            forall|j: int| 0 <= j < old(states)@.len() ==> state_ok(#[trigger] old(states)@[j].state),
        ensures
            final(states)@.len() >= old(states)@.len(),
            final(states)@.subrange(0, old(states)@.len() as int) == old(states)@,
            forall|j: int|
                old(states)@.len() <= j < final(states)@.len() ==> #[trigger] self.deletion_parent(final(states)@, 0, j),
            forall|k: int| #![trigger final(seen)@[k]] 0 <= k < old(seen)@.len() ==> final(seen)@[k] == old(seen)@[k],
            final(seen)@.len() >= old(seen)@.len(),
            forall|j: int|
                0 <= j < final(states)@.len() && self.may_delete((#[trigger] final(states)@[j]).state) ==> seen_has(
                    final(seen)@,
                    (deletion_of(final(states)@[j]).state, final(states)@[j].start_byte),
                ),
            (final(states)@, final(seen)@) == self.closure_run(old(states)@, 0, old(seen)@),
    {
        self.epsilon_closure_from(states, 0, seen);
    }

    /// Keeps only the `beam_width` states with the fewest edits, in order of
    /// edits, once there are more than twice that many.
    pub fn beam_prune(&self, states: &mut Vec<ActiveState>)
        ensures
            old(states)@.len() <= 2 * self.spec_beam_width() ==> final(states)@ == old(states)@,
            final(states)@ == beam_kept(old(states)@, self.spec_beam_width() as int),
            old(states)@.len() > 2 * self.spec_beam_width() ==> {
                &&& final(states)@.len() == self.spec_beam_width()
                &&& forall|a: int, b: int| 0 <= a < b < final(states)@.len() ==> (#[trigger] final(states)@[a]).state.total_edits
                    <= (#[trigger] final(states)@[b]).state.total_edits
                &&& forall|a: int| 0 <= a < final(states)@.len() ==> old(states)@.contains(#[trigger] final(states)@[a])
                &&& exists|rest: Seq<ActiveState>|
                    #![trigger (final(states)@ + rest)]
                    (final(states)@ + rest).to_multiset() == old(states)@.to_multiset() && forall|a: int, b: int|
                        0 <= a < final(states)@.len() && 0 <= b < rest.len() ==> (#[trigger] final(states)@[a]).state.total_edits
                            <= (#[trigger] rest[b]).state.total_edits
            },
    {
        if (states.len() as u128) <= (self.beam_width as u128) * 2 {
            return;
        }
        let mut sorted: Vec<ActiveState> = Vec::new();
        let mut i: usize = 0;
        proof {
            assert(states@.take(0) =~= Seq::<ActiveState>::empty());
            assert(sorted@ =~= Seq::<ActiveState>::empty());
            broadcast use vstd::multiset::group_multiset_axioms;
        }
        while i < states.len()
            invariant
                0 <= i <= states@.len(),
                sorted@.len() == i,
                sorted@ == sort_run(states@, i as int),
                forall|a: int, b: int| 0 <= a < b < sorted@.len() ==> (#[trigger] sorted@[a]).state.total_edits
                    <= (#[trigger] sorted@[b]).state.total_edits,
                forall|a: int| 0 <= a < sorted@.len() ==> states@.contains(#[trigger] sorted@[a]),
                sorted@.to_multiset() == states@.take(i as int).to_multiset(),
            decreases states@.len() - i,
        {
            let x = states[i];
            let mut p: usize = sorted.len();
            proof {
                assert(sorted@.take(sorted@.len() as int) =~= sorted@);
            }
            while p > 0 && sorted[p - 1].state.total_edits > x.state.total_edits
                invariant
                    0 <= p <= sorted@.len(),
                    forall|a: int| p <= a < sorted@.len() ==> (#[trigger] sorted@[a]).state.total_edits > x.state.total_edits,
                    insert_pos(sorted@, x) == insert_pos(sorted@.take(p as int), x),
                decreases p,
            {
                proof {
                    assert(sorted@.take(p as int).drop_last() =~= sorted@.take(p - 1));
                }
                p = p - 1;
            }
            proof {
                if p > 0 {
                    assert(sorted@.take(p as int).last() == sorted@[p - 1]);
                }
                assert(insert_pos(sorted@, x) == p);
                assert(states@[i as int] == x);
            }
            let ghost before = sorted@;
            sorted.insert(p, x);
            proof {
                assert(sorted@ == before.insert(p as int, x));
                vstd::seq_lib::to_multiset_insert(before, p as int, x);
                assert(states@.take(i + 1) =~= states@.take(i as int).push(x));
                vstd::seq_lib::to_multiset_build(states@.take(i as int), x);
                assert forall|a: int, b: int| 0 <= a < b < sorted@.len() implies (#[trigger] sorted@[a]).state.total_edits
                    <= (#[trigger] sorted@[b]).state.total_edits by {
                    if b < p {
                    } else if b == p {
                        if p > 0 {
                            assert(before[p - 1].state.total_edits <= x.state.total_edits);
                            assert(before[a].state.total_edits <= before[p - 1].state.total_edits || a == p - 1);
                        }
                    } else if a < p {
                        assert(sorted@[b] == before[b - 1]);
                    } else if a == p {
                        assert(sorted@[b] == before[b - 1]);
                    } else {
                        assert(sorted@[a] == before[a - 1]);
                        assert(sorted@[b] == before[b - 1]);
                    }
                }
                assert forall|a: int| 0 <= a < sorted@.len() implies states@.contains(#[trigger] sorted@[a]) by {
                    if a < p {
                        assert(sorted@[a] == before[a]);
                    } else if a == p {
                        assert(states@[i as int] == x);
                    } else {
                        assert(sorted@[a] == before[a - 1]);
                    }
                }
            }
            i = i + 1;
        }
        let ghost all = sorted@;
        let bw = self.beam_width;
        sorted.truncate(bw);
        proof {
            assert(all == sort_run(states@, states@.len() as int));
            assert(sorted@ =~= all.take(bw as int));
        }
        proof {
            assert(states@.take(states@.len() as int) =~= states@);
            let rest = all.skip(bw as int);
            assert(sorted@ + rest =~= all);
            assert forall|a: int, b: int| 0 <= a < sorted@.len() && 0 <= b < rest.len() implies (#[trigger] sorted@[a]).state.total_edits
                <= (#[trigger] rest[b]).state.total_edits by {
                assert(sorted@[a] == all[a]);
                assert(rest[b] == all[bw + b]);
            }
        }
        *states = sorted;
    }
}

/// The first `k` pattern characters `p` are aligned with the text
/// characters `f[s..e]` using exactly `ins` insertions, `del` deletions, `sub`
/// substitutions and `swp` transpositions.  The alignment is built step by
/// step at its end: a match, a substitution of a different character, an
/// insertion of a text character, a deletion of a pattern character, a
/// transposition of two adjacent different characters, or the automaton's
/// look-ahead transposition, which pairs the last text character and the
/// one right after `e` with the last two pattern characters but consumes only
/// the first of them.
pub open spec fn aligned(p: Seq<char>, f: Seq<char>, s: int, e: int, k: int, ins: int, del: int, sub: int, swp: int) -> bool
    decreases e - s + k,
{
    if s < 0 || e < s || e > f.len() || k < 0 || k > p.len() || ins < 0 || del < 0 || sub < 0 || swp < 0 {
        false
    } else if e == s && k == 0 {
        ins == 0 && del == 0 && sub == 0 && swp == 0
    } else {
        ||| (k > 0 && e > s && p[k - 1] == f[e - 1] && aligned(p, f, s, e - 1, k - 1, ins, del, sub, swp))
        ||| (k > 0 && e > s && p[k - 1] != f[e - 1] && aligned(p, f, s, e - 1, k - 1, ins, del, sub - 1, swp))
        ||| (e > s && aligned(p, f, s, e - 1, k, ins - 1, del, sub, swp))
        ||| (k > 0 && aligned(p, f, s, e, k - 1, ins, del - 1, sub, swp))
        ||| (k >= 2 && e >= s + 2 && p[k - 1] == f[e - 2] && p[k - 2] == f[e - 1] && p[k - 1] != p[k - 2] && aligned(
            p,
            f,
            s,
            e - 2,
            k - 2,
            ins,
            del,
            sub,
            swp - 1,
        ))
        ||| (k >= 2 && e >= s + 1 && e < f.len() && p[k - 2] == f[e] && p[k - 1] == f[e - 1] && p[k - 1] != p[k - 2]
            && aligned(p, f, s, e - 1, k - 2, ins, del, sub, swp - 1))
    }
}

/// A transposition started at text position `tau - 1` waits for the text
/// character at `tau`: the first `k - 2` pattern characters are aligned with
/// `f[s..tau - 1]`, and the last two are the characters at `tau` and `tau - 1`.
pub open spec fn pending(p: Seq<char>, f: Seq<char>, s: int, tau: int, k: int, ins: int, del: int, sub: int, swp: int) -> bool {
    &&& k >= 2
    &&& s + 1 <= tau < f.len()
    &&& p[k - 2] == f[tau]
    &&& p[k - 1] == f[tau - 1]
    &&& p[k - 1] != p[k - 2]
    &&& aligned(p, f, s, tau - 1, k - 2, ins, del, sub, swp - 1)
}

/// `used` stays within an optional per-kind limit.
pub open spec fn within(limit: Option<u8>, used: int) -> bool {
    match limit {
        Some(max) => used <= max,
        None => true,
    }
}

/// Edit counts that respect the limits.
pub open spec fn fits(lim: EditLimits, ins: int, del: int, sub: int, swp: int) -> bool {
    &&& ins + del + sub + swp <= lim.max_edits
    &&& within(lim.max_insertions, ins)
    &&& within(lim.max_deletions, del)
    &&& within(lim.max_substitutions, sub)
    &&& within(lim.max_swaps, swp)
}

/// The text as the automaton reads it: each character lowercased when
/// matching is case-insensitive.
pub open spec fn folded(t: Seq<char>, ci: bool) -> Seq<char> {
    Seq::new(t.len(), |i: int| if ci { lower_char(t[i]) } else { t[i] })
}

/// The edit counts of an automaton state.
pub open spec fn counts_of(st: State) -> (int, int, int, int) {
    (st.insertions as int, st.deletions as int, st.substitutions as int, st.swaps as int)
}

/// Matches may start at `b`: anywhere, or only at the listed byte positions.
pub open spec fn allowed_start(sv: Option<Seq<usize>>, b: usize) -> bool {
    match sv {
        Some(v) => v.contains(b),
        None => true,
    }
}

/// A live state after `tau` text characters `t` have been read: its edits add
/// up and respect the limits, its start lies at a character boundary, and it
/// is aligned with the text read since its start (or waits for the second
/// character of a transposition).
pub open spec fn live(p: Seq<char>, t: Seq<char>, ci: bool, lim: EditLimits, sv: Option<Seq<usize>>, tau: int, a: ActiveState) -> bool {
    let c = counts_of(a.state);
    let f = folded(t, ci);
    &&& allowed_start(sv, a.start_byte)
    &&& state_ok(a.state)
    &&& fits(lim, c.0, c.1, c.2, c.3)
    &&& a.state.pos <= p.len()
    &&& a.start_char <= tau
    &&& a.start_byte == byte_offset(t, a.start_char as int)
    &&& if a.state.skip_next {
        pending(p, f, a.start_char as int, tau, a.state.pos as int, c.0, c.1, c.2, c.3)
    } else {
        aligned(p, f, a.start_char as int, tau, a.state.pos as int, c.0, c.1, c.2, c.3)
    }
}

/// A reported approximate match: byte span and edit counts.
#[derive(Clone, Copy, PartialEq, Eq, Structural, Debug)]
pub struct EditMatch {
    pub start: usize,
    pub end: usize,
    pub insertions: u8,
    pub deletions: u8,
    pub substitutions: u8,
    pub swaps: u8,
}

/// Similarity scores replaced by their places in one common order (equal
/// scores share a place).  For an edit profile of `e` edits with `x - max_edits`
/// more insertions than deletions, `finished[e][x]` is the place of the score of
/// a finished match and `reachable[e][x]` that of the best score a partial match
/// can still reach; `threshold` is the place of the threshold.  A missing entry
/// counts as place zero.
pub struct SimilarityRanks {
    pub threshold: u32,
    pub finished: Vec<Vec<u32>>,
    pub reachable: Vec<Vec<u32>>,
}

/// The entry of a rank table, zero where it has none.
pub open spec fn rank_in(t: Seq<Vec<u32>>, e: int, x: int) -> int {
    if 0 <= e < t.len() && 0 <= x < t[e]@.len() {
        t[e]@[x] as int
    } else {
        0
    }
}

pub(crate) fn rank_lookup(t: &Vec<Vec<u32>>, e: usize, x: usize) -> (r: u32)
    ensures
        r as int == rank_in(t@, e as int, x as int),
{
    if e < t.len() && x < t[e].len() {
        t[e][x]
    } else {
        0
    }
}

/// The place of a match's score.
pub open spec fn match_rank(finished: Seq<Vec<u32>>, max_edits: u8, m: EditMatch) -> int {
    rank_in(
        finished,
        m.insertions + m.deletions + m.substitutions + m.swaps,
        m.insertions - m.deletions + max_edits,
    )
}

/// Two matches cover the same byte span.
pub open spec fn same_span(a: EditMatch, b: EditMatch) -> bool {
    a.start == b.start && a.end == b.end
}

impl DamLevNfa {
    pub closed spec fn spec_case_insensitive(&self) -> bool {
        self.case_insensitive
    }

    /// `m` is a genuine match in text `t`: its span is not empty and runs
    /// between character boundaries, the whole pattern is aligned with the span using exactly its
    /// edits, the edits respect the limits, and its score reaches the threshold.
    pub open spec fn found(&self, t: Seq<char>, ranks: SimilarityRanks, m: EditMatch) -> bool {
        let p = self.spec_pattern_chars();
        &&& exists|s: int, e: int|
            0 <= s < e <= t.len() && #[trigger] byte_offset(t, s) == m.start && #[trigger] byte_offset(t, e) == m.end
                && aligned(
                p,
                folded(t, self.spec_case_insensitive()),
                s,
                e,
                p.len() as int,
                m.insertions as int,
                m.deletions as int,
                m.substitutions as int,
                m.swaps as int,
            )
        &&& m.start < m.end
        &&& fits(self.spec_limits(), m.insertions as int, m.deletions as int, m.substitutions as int, m.swaps as int)
        &&& match_rank(ranks.finished@, self.spec_limits().max_edits, m) >= ranks.threshold
    }
}

/// Deleting the rest of the pattern: an alignment of the first `k` pattern
/// characters extends to the first `k2` by `k2 - k` deletions.
pub proof fn lemma_delete_rest(p: Seq<char>, f: Seq<char>, s: int, e: int, k: int, k2: int, ins: int, del: int, sub: int, swp: int)
    requires
        aligned(p, f, s, e, k, ins, del, sub, swp),
        k <= k2 <= p.len(),
    ensures
        aligned(p, f, s, e, k2, ins, del + (k2 - k), sub, swp),
    decreases k2 - k,
{
    if k2 > k {
        lemma_delete_rest(p, f, s, e, k, k2 - 1, ins, del, sub, swp);
    }
}

impl DamLevNfa {
    /// The deletion successor of a live state is live.
    pub proof fn lemma_deletion_live(&self, t: Seq<char>, sv: Option<Seq<usize>>, tau: int, a: ActiveState)
        requires
            live(self.spec_pattern_chars(), t, self.spec_case_insensitive(), self.spec_limits(), sv, tau, a),
            self.may_delete(a.state),
            self.spec_pattern_chars().len() <= usize::MAX,
        ensures
            live(self.spec_pattern_chars(), t, self.spec_case_insensitive(), self.spec_limits(), sv, tau, deletion_of(a)),
    {
        let p = self.spec_pattern_chars();
        let f = folded(t, self.spec_case_insensitive());
        let c = counts_of(a.state);
        let s = a.start_char as int;
        let k = a.state.pos as int;
        if a.state.skip_next {
            assert(aligned(p, f, s, tau, k, c.0, c.1, c.2, c.3));
        }
        assert(aligned(p, f, s, tau, k + 1, c.0, c.1 + 1, c.2, c.3));
    }

    /// After a deletion closure over `v[lo..]`, every state from `lo` on is
    /// live when those present before it (up to `n0`) were.
    pub proof fn lemma_closure_live(&self, t: Seq<char>, sv: Option<Seq<usize>>, tau: int, v: Seq<ActiveState>, lo: int, n0: int, m: int)
        requires
            0 <= lo <= n0 <= m <= v.len(),
            self.spec_pattern_chars().len() <= usize::MAX,
            forall|j: int|
                lo <= j < n0 ==> live(
                    self.spec_pattern_chars(),
                    t,
                    self.spec_case_insensitive(),
                    self.spec_limits(),
                    sv,
                    tau,
                    #[trigger] v[j],
                ),
            forall|j: int| n0 <= j < v.len() ==> #[trigger] self.deletion_parent(v, lo, j),
        ensures
            forall|j: int|
                lo <= j < m ==> live(
                    self.spec_pattern_chars(),
                    t,
                    self.spec_case_insensitive(),
                    self.spec_limits(),
                    sv,
                    tau,
                    #[trigger] v[j],
                ),
        decreases m,
    {
        if m > n0 {
            self.lemma_closure_live(t, sv, tau, v, lo, n0, m - 1);
            assert(self.deletion_parent(v, lo, m - 1));
            let q = choose|q: int| #![trigger v[q]] lo <= q < m - 1 && v[m - 1] == deletion_of(v[q]) && self.may_delete(v[q].state);
            self.lemma_deletion_live(t, sv, tau, v[q]);
        }
    }

    /// The deletion closure starts no state later than the states it grew from.
    proof fn lemma_closure_start_bound(&self, v: Seq<ActiveState>, lo: int, n0: int, m: int, b: int)
        requires
            0 <= lo <= n0 <= m <= v.len(),
            forall|j: int| lo <= j < n0 ==> (#[trigger] v[j]).start_char <= b,
            forall|j: int| n0 <= j < v.len() ==> #[trigger] self.deletion_parent(v, lo, j),
        ensures
            forall|j: int| lo <= j < m ==> (#[trigger] v[j]).start_char <= b,
        decreases m,
    {
        if m > n0 {
            self.lemma_closure_start_bound(v, lo, n0, m - 1, b);
            assert(self.deletion_parent(v, lo, m - 1));
            let q = choose|q: int| #![trigger v[q]] lo <= q < m - 1 && v[m - 1] == deletion_of(v[q]) && self.may_delete(v[q].state);
            assert(v[q].start_char <= b);
        }
    }
}

impl DamLevNfa {
    /// The states one state steps to on text character `c` (`next` the one
    /// after it): a state waiting on a transposition only consumes `c`;
    /// otherwise, in order, the match, the substitution, the transposition
    /// and the insertion, each where the pattern and the limits allow it.
    pub open spec fn successors(&self, a: ActiveState, c: char, next: Option<char>) -> Seq<ActiveState> {
        let st = a.state;
        let p = self.spec_pattern_chars();
        let lim = self.spec_limits();
        if st.skip_next {
            seq![ActiveState { state: State { skip_next: false, ..st }, ..a }]
        } else {
            let inside = st.pos < p.len();
            let pc = p[st.pos as int];
            let mat = if inside && c == pc {
                seq![ActiveState { state: State { pos: (st.pos + 1) as usize, skip_next: false, ..st }, ..a }]
            } else {
                Seq::empty()
            };
            let sub = if inside && c != pc && st.total_edits < lim.max_edits && under(lim.max_substitutions, st.substitutions) {
                seq![ActiveState {
                    state: State {
                        pos: (st.pos + 1) as usize,
                        substitutions: (st.substitutions + 1) as u8,
                        total_edits: (st.total_edits + 1) as u8,
                        skip_next: false,
                        ..st
                    },
                    ..a
                }]
            } else {
                Seq::empty()
            };
            let swp = if inside && next is Some && st.pos + 1 < p.len() && st.total_edits < lim.max_edits && under(
                lim.max_swaps,
                st.swaps,
            ) && pc == next->0 && p[st.pos + 1] == c && pc != p[st.pos + 1] {
                seq![ActiveState {
                    state: State {
                        pos: (st.pos + 2) as usize,
                        swaps: (st.swaps + 1) as u8,
                        total_edits: (st.total_edits + 1) as u8,
                        skip_next: true,
                        ..st
                    },
                    ..a
                }]
            } else {
                Seq::empty()
            };
            let ins = if st.total_edits < lim.max_edits && under(lim.max_insertions, st.insertions) {
                seq![ActiveState {
                    state: State {
                        insertions: (st.insertions + 1) as u8,
                        total_edits: (st.total_edits + 1) as u8,
                        skip_next: false,
                        ..st
                    },
                    ..a
                }]
            } else {
                Seq::empty()
            };
            mat + sub + swp + ins
        }
    }

    /// The successors of all of `v`, in order.
    pub open spec fn step_all(&self, v: Seq<ActiveState>, c: char, next: Option<char>) -> Seq<ActiveState>
        decreases v.len(),
    {
        if v.len() == 0 {
            Seq::empty()
        } else {
            self.step_all(v.drop_last(), c, next) + self.successors(v.last(), c, next)
        }
    }

    /// The states after reading text character `tau` (`c`, lowercased when
    /// case-insensitive; `next` is the following one): each live state takes
    /// its match, substitution, transposition and insertion transitions, and a
    /// state waiting on a transposition just consumes the character.
    #[verifier::rlimit(80)]
    #[verifier::spinoff_prover]
    fn step_states(&self, text: &str, Ghost(sv): Ghost<Option<Seq<usize>>>, tau: usize, active: &Vec<ActiveState>, c: char, next: Option<char>) -> (r: Vec<
        ActiveState,
    >)
        requires
            tau < text@.len(),
            self.spec_pattern_chars().len() <= usize::MAX,
            c == folded(text@, self.spec_case_insensitive())[tau as int],
            next == (if tau + 1 < text@.len() {
                Some(folded(text@, self.spec_case_insensitive())[tau + 1])
            } else {
                None
            }),
            forall|j: int|
                0 <= j < active@.len() ==> live(
                    self.spec_pattern_chars(),
                    text@,
                    self.spec_case_insensitive(),
                    self.spec_limits(),
                    sv,
                    tau as int,
                    #[trigger] active@[j],
                ),
        ensures
            forall|j: int|
                0 <= j < r@.len() ==> live(
                    self.spec_pattern_chars(),
                    text@,
                    self.spec_case_insensitive(),
                    self.spec_limits(),
                    sv,
                    tau + 1,
                    #[trigger] r@[j],
                ),
            forall|j: int| 0 <= j < r@.len() ==> (#[trigger] r@[j]).start_char <= tau,
            r@ == self.step_all(active@, c, next),
    {
        let ghost p = self.spec_pattern_chars();
        let ghost t = text@;
        let ghost ci = self.spec_case_insensitive();
        let ghost lim = self.spec_limits();
        let ghost f = folded(t, ci);
        let n_p = self.pattern_chars.len();
        let mut out: Vec<ActiveState> = Vec::new();
        let mut i: usize = 0;
        while i < active.len()
            invariant
                0 <= i <= active@.len(),
                n_p == p.len(),
                p == self.spec_pattern_chars(),
                t == text@,
                ci == self.spec_case_insensitive(),
                lim == self.spec_limits(),
                f == folded(t, ci),
                tau < t.len(),
                c == f[tau as int],
                next == (if tau + 1 < t.len() {
                    Some(f[tau + 1])
                } else {
                    None
                }),
                forall|j: int| 0 <= j < active@.len() ==> live(p, t, ci, lim, sv, tau as int, #[trigger] active@[j]),
                forall|j: int| 0 <= j < out@.len() ==> live(p, t, ci, lim, sv, tau + 1, #[trigger] out@[j]),
                forall|j: int| 0 <= j < out@.len() ==> (#[trigger] out@[j]).start_char <= tau,
                out@ == self.step_all(active@.take(i as int), c, next),
            decreases active@.len() - i,
        {
            let a = active[i];
            let st = a.state;
            let ghost base = out@;
            proof {
                assert(active@.take(i + 1).drop_last() =~= active@.take(i as int));
                assert(active@.take(i + 1).last() == a);
            }
            let ghost s0 = a.start_char as int;
            let ghost k = st.pos as int;
            let ghost cnt = counts_of(st);
            assert(live(p, t, ci, lim, sv, tau as int, active@[i as int]));
            if st.skip_next {
                let cont = ActiveState { state: State { skip_next: false, ..st }, ..a };
                proof {
                    assert(aligned(p, f, s0, tau + 1, k, cnt.0, cnt.1, cnt.2, cnt.3));
                    assert(live(p, t, ci, lim, sv, tau + 1, cont));
                }
                out.push(cont);
            } else {
                if st.pos < n_p {
                    let pc = self.pattern_chars[st.pos];
                    assert(pc == p[k]);
                    if c == pc {
                        let na = ActiveState { state: st.advance_match(), ..a };
                        proof {
                            assert(aligned(p, f, s0, tau + 1, k + 1, cnt.0, cnt.1, cnt.2, cnt.3));
                            assert(live(p, t, ci, lim, sv, tau + 1, na));
                        }
                        out.push(na);
                    }
                    if c != pc && self.can_substitute(&st) {
                        let na = ActiveState { state: st.advance_substitution(), ..a };
                        proof {
                            assert(aligned(p, f, s0, tau + 1, k + 1, cnt.0, cnt.1, cnt.2 + 1, cnt.3));
                            assert(live(p, t, ci, lim, sv, tau + 1, na));
                        }
                        out.push(na);
                    }
                    if let Some(nc) = next {
                        if st.pos + 1 < n_p && self.can_swap(&st) {
                            let npc = self.pattern_chars[st.pos + 1];
                            if pc == nc && npc == c && pc != npc {
                                let na = ActiveState { state: st.advance_swap(), ..a };
                                proof {
                                    assert(pending(p, f, s0, tau + 1, k + 2, cnt.0, cnt.1, cnt.2, cnt.3 + 1));
                                    assert(live(p, t, ci, lim, sv, tau + 1, na));
                                }
                                out.push(na);
                            }
                        }
                    }
                }
                if self.can_insert(&st) {
                    let na = ActiveState { state: st.advance_insertion(), ..a };
                    proof {
                        assert(aligned(p, f, s0, tau + 1, k, cnt.0 + 1, cnt.1, cnt.2, cnt.3));
                        assert(live(p, t, ci, lim, sv, tau + 1, na));
                    }
                    out.push(na);
                }
            }
            assert(out@ =~= base + self.successors(a, c, next));
            i = i + 1;
        }
        assert(active@.take(active@.len() as int) =~= active@);
        out
    }
}

/// The place of the score of match `m`.
pub(crate) fn score_rank(finished: &Vec<Vec<u32>>, max_edits: u8, m: &EditMatch) -> (r: u32)
    requires
        m.deletions <= max_edits,
    ensures
        r as int == match_rank(finished@, max_edits, *m),
{
    let e = m.insertions as usize + m.deletions as usize + m.substitutions as usize + m.swaps as usize;
    let x = m.insertions as usize + max_edits as usize - m.deletions as usize;
    rank_lookup(finished, e, x)
}

/// Recording `m`: a new span is added; for a span already present, `m`
/// takes the place of the recorded match when its score is placed strictly higher.
pub open spec fn record_run(ms: Seq<EditMatch>, m: EditMatch, finished: Seq<Vec<u32>>, k: u8) -> Seq<EditMatch> {
    if exists|q: int| 0 <= q < ms.len() && #[trigger] same_span(ms[q], m) {
        let q = choose|q: int| 0 <= q < ms.len() && #[trigger] same_span(ms[q], m);
        if match_rank(finished, k, m) > match_rank(finished, k, ms[q]) {
            ms.update(q, m)
        } else {
            ms
        }
    } else {
        ms.push(m)
    }
}

/// Records `m`: a new span is added; for a span already present, `m` takes the
/// place of the recorded match when its score is placed strictly higher.
pub(crate) fn record_match(matches: &mut Vec<EditMatch>, m: EditMatch, finished: &Vec<Vec<u32>>, max_edits: u8)
    requires
        m.deletions <= max_edits,
        forall|i: int| 0 <= i < old(matches)@.len() ==> (#[trigger] old(matches)@[i]).deletions <= max_edits,
        forall|i: int, j: int| 0 <= i < j < old(matches)@.len() ==> !same_span(#[trigger] old(matches)@[i], #[trigger] old(matches)@[j]),
    ensures
        forall|i: int, j: int| 0 <= i < j < final(matches)@.len() ==> !same_span(#[trigger] final(matches)@[i], #[trigger] final(matches)@[j]),
        forall|i: int| 0 <= i < final(matches)@.len() ==> #[trigger] final(matches)@[i] == m || old(matches)@.contains(final(matches)@[i]),
        forall|i: int| 0 <= i < final(matches)@.len() ==> (#[trigger] final(matches)@[i]).deletions <= max_edits,
        exists|i: int| 0 <= i < final(matches)@.len() && same_span(#[trigger] final(matches)@[i], m),
        final(matches)@ == record_run(old(matches)@, m, finished@, max_edits),
{
    let ghost orig = matches@;
    let mut q: usize = 0;
    while q < matches.len()
        invariant
            0 <= q <= matches@.len(),
            matches@ == orig,
            orig == old(matches)@,
            m.deletions <= max_edits,
            forall|i: int| 0 <= i < orig.len() ==> (#[trigger] orig[i]).deletions <= max_edits,
            forall|i: int, j: int| 0 <= i < j < orig.len() ==> !same_span(#[trigger] orig[i], #[trigger] orig[j]),
            forall|i: int| 0 <= i < q ==> !same_span(#[trigger] matches@[i], m),
        decreases matches@.len() - q,
    {
        if matches[q].start == m.start && matches[q].end == m.end {
            let existing = matches[q];
            proof {
                let q0 = choose|q0: int| 0 <= q0 < orig.len() && #[trigger] same_span(orig[q0], m);
                assert(same_span(orig[q as int], m));
                if q0 != q {
                    if q0 < q {
                        assert(!same_span(orig[q0], orig[q as int]));
                    } else {
                        assert(!same_span(orig[q as int], orig[q0]));
                    }
                }
            }
            let better = score_rank(finished, max_edits, &m) > score_rank(finished, max_edits, &existing);
            if better {
                matches.set(q, m);
            }
            proof {
                assert forall|i: int| 0 <= i < matches@.len() implies #[trigger] matches@[i] == m || orig.contains(matches@[i]) by {
                    if i != q {
                        assert(matches@[i] == orig[i]);
                    } else if !better {
                        assert(matches@[i] == orig[i]);
                    }
                }
                assert(same_span(matches@[q as int], m));
            }
            return;
        }
        q = q + 1;
    }
    matches.push(m);
    proof {
        assert forall|i: int| 0 <= i < matches@.len() implies #[trigger] matches@[i] == m || orig.contains(matches@[i]) by {
            if i < orig.len() {
                assert(matches@[i] == orig[i]);
            }
        }
        assert(same_span(matches@[orig.len() as int], m));
    }
}

/// Where the stable insertion by edits puts `x` into `s`: after the last
/// state from the end whose edits are not above those of `x`.
pub open spec fn insert_pos(s: Seq<ActiveState>, x: ActiveState) -> int
    decreases s.len(),
{
    if s.len() == 0 || s.last().state.total_edits <= x.state.total_edits {
        s.len() as int
    } else {
        insert_pos(s.drop_last(), x)
    }
}

/// The first `i` states of `v`, stably sorted by edits by insertion.
pub open spec fn sort_run(v: Seq<ActiveState>, i: int) -> Seq<ActiveState>
    decreases i,
{
    if i <= 0 {
        seq![]
    } else {
        let s = sort_run(v, i - 1);
        s.insert(insert_pos(s, v[i - 1]), v[i - 1])
    }
}

/// What the beam keeps of `v`: everything while there are at most twice
/// `bw` states, else the `bw` with fewest edits (earlier first on ties).
pub open spec fn beam_kept(v: Seq<ActiveState>, bw: int) -> Seq<ActiveState> {
    if v.len() <= 2 * bw {
        v
    } else {
        sort_run(v, v.len() as int).take(bw)
    }
}

proof fn lemma_insert_pos_bound(s: Seq<ActiveState>, x: ActiveState)
    ensures
        0 <= insert_pos(s, x) <= s.len(),
    decreases s.len(),
{
    if !(s.len() == 0 || s.last().state.total_edits <= x.state.total_edits) {
        lemma_insert_pos_bound(s.drop_last(), x);
    }
}

proof fn lemma_sort_run_len(v: Seq<ActiveState>, i: int)
    requires
        0 <= i,
    ensures
        sort_run(v, i).len() == i,
    decreases i,
{
    if i > 0 {
        lemma_sort_run_len(v, i - 1);
        lemma_insert_pos_bound(sort_run(v, i - 1), v[i - 1]);
    }
}

/// Keeping the best state per slot, as the automaton does it, from index
/// `i` of `next` on: a hopeful state joins `out` when its slot is new, and
/// takes the place of the slot's state when it has strictly fewer edits.
pub open spec fn keep_run(ranks: SimilarityRanks, k: u8, next: Seq<ActiveState>, i: int, out: Seq<ActiveState>) -> Seq<
    ActiveState,
>
    decreases next.len() - i,
{
    if i < 0 || i >= next.len() {
        out
    } else {
        let a = next[i];
        let out2 = if hopeful(ranks, k, a) {
            if exists|q: int| 0 <= q < out.len() && #[trigger] same_slot(out[q], a) {
                let q = choose|q: int| 0 <= q < out.len() && #[trigger] same_slot(out[q], a);
                if a.state.total_edits < out[q].state.total_edits {
                    out.update(q, a)
                } else {
                    out
                }
            } else {
                out.push(a)
            }
        } else {
            out
        };
        keep_run(ranks, k, next, i + 1, out2)
    }
}

/// Two states at the same pattern position, from the same start, with the
/// same waiting flag.
pub open spec fn same_slot(a: ActiveState, b: ActiveState) -> bool {
    a.state.pos == b.state.pos && a.start_byte == b.start_byte && a.state.skip_next == b.state.skip_next
}

/// The best score state `a` can still reach is placed at or above the threshold.
pub open spec fn hopeful(ranks: SimilarityRanks, k: u8, a: ActiveState) -> bool {
    rank_in(ranks.reachable@, a.state.total_edits as int, a.state.insertions + k - a.state.deletions) >= ranks.threshold
}

impl DamLevNfa {
    /// Keeps, for each pattern position, start and waiting flag, the state
    /// with the fewest edits (the first one on ties), dropping states whose
    /// best reachable score is placed below the threshold.
    fn keep_best(&self, ranks: &SimilarityRanks, next: &Vec<ActiveState>) -> (r: Vec<ActiveState>)
        requires
            forall|j: int| 0 <= j < next@.len() ==> (#[trigger] next@[j]).state.deletions <= self.spec_limits().max_edits,
        ensures
            forall|j: int| 0 <= j < r@.len() ==> next@.contains(#[trigger] r@[j]),
            forall|j: int| 0 <= j < r@.len() ==> hopeful(*ranks, self.spec_limits().max_edits, #[trigger] r@[j]),
            forall|i: int, j: int| 0 <= i < j < r@.len() ==> !same_slot(#[trigger] r@[i], #[trigger] r@[j]),
            forall|j: int|
                0 <= j < next@.len() && hopeful(*ranks, self.spec_limits().max_edits, #[trigger] next@[j]) ==> exists|q: int|
                    0 <= q < r@.len() && same_slot(#[trigger] r@[q], next@[j]) && r@[q].state.total_edits
                        <= next@[j].state.total_edits,
            r@ == keep_run(*ranks, self.spec_limits().max_edits, next@, 0, seq![]),
    {
        let k = self.limits.max_edits;
        let mut out: Vec<ActiveState> = Vec::new();
        let mut i: usize = 0;
        while i < next.len()
            invariant
                0 <= i <= next@.len(),
                k == self.spec_limits().max_edits,
                forall|j: int| 0 <= j < next@.len() ==> (#[trigger] next@[j]).state.deletions <= k,
                forall|j: int| 0 <= j < out@.len() ==> next@.contains(#[trigger] out@[j]),
                forall|j: int| 0 <= j < out@.len() ==> hopeful(*ranks, k, #[trigger] out@[j]),
                forall|a: int, b: int| 0 <= a < b < out@.len() ==> !same_slot(#[trigger] out@[a], #[trigger] out@[b]),
                keep_run(*ranks, k, next@, 0, seq![]) == keep_run(*ranks, k, next@, i as int, out@),
                forall|j: int|
                    0 <= j < i && hopeful(*ranks, k, #[trigger] next@[j]) ==> exists|q: int|
                        0 <= q < out@.len() && same_slot(#[trigger] out@[q], next@[j]) && out@[q].state.total_edits
                            <= next@[j].state.total_edits,
            decreases next@.len() - i,
        {
            let a = next[i];
            let st = a.state;
            let ghost out0 = out@;
            assert(next@[i as int] == a);
            let hope = rank_lookup(
                &ranks.reachable,
                st.total_edits as usize,
                st.insertions as usize + k as usize - st.deletions as usize,
            );
            if hope >= ranks.threshold {
                let mut q: usize = 0;
                let mut found = false;
                while q < out.len() && !found
                    invariant
                        0 <= q <= out@.len(),
                        st == a.state,
                        found ==> q < out@.len() && same_slot(out@[q as int], a),
                        forall|q2: int| 0 <= q2 < q ==> !same_slot(#[trigger] out@[q2], a),
                    decreases out@.len() - q + (if found {
                        0int
                    } else {
                        1int
                    }),
                {
                    let o = out[q].state;
                    if o.pos == st.pos && out[q].start_byte == a.start_byte && o.skip_next == st.skip_next {
                        found = true;
                    } else {
                        q = q + 1;
                    }
                }
                if found {
                    let ghost before = out@;
                    if st.total_edits < out[q].state.total_edits {
                        out.set(q, a);
                    }
                    proof {
                        assert forall|j: int| 0 <= j < out@.len() implies next@.contains(#[trigger] out@[j]) && hopeful(
                            *ranks,
                            k,
                            out@[j],
                        ) by {
                            if j != q {
                                assert(out@[j] == before[j]);
                            } else if out@[j] == before[j] {
                            }
                        }
                        assert forall|x: int, y: int| 0 <= x < y < out@.len() implies !same_slot(#[trigger] out@[x], #[trigger] out@[y]) by {
                            assert(same_slot(out@[x], before[x]) && same_slot(out@[y], before[y]));
                            assert(!same_slot(before[x], before[y]));
                        }
                        assert forall|j: int|
                            0 <= j < i + 1 && hopeful(*ranks, k, #[trigger] next@[j]) implies exists|w: int|
                                0 <= w < out@.len() && same_slot(#[trigger] out@[w], next@[j]) && out@[w].state.total_edits
                                    <= next@[j].state.total_edits by {
                            if j == i {
                                assert(same_slot(out@[q as int], next@[j]));
                            } else {
                                let w = choose|w: int|
                                    0 <= w < before.len() && same_slot(#[trigger] before[w], next@[j]) && before[w].state.total_edits
                                        <= next@[j].state.total_edits;
                                assert(same_slot(out@[w], next@[j]));
                            }
                        }
                    }
                } else {
                    let ghost before = out@;
                    out.push(a);
                    proof {
                        assert forall|j: int| 0 <= j < out@.len() implies next@.contains(#[trigger] out@[j]) && hopeful(
                            *ranks,
                            k,
                            out@[j],
                        ) by {
                            if j < before.len() {
                                assert(out@[j] == before[j]);
                            }
                        }
                        assert forall|x: int, y: int| 0 <= x < y < out@.len() implies !same_slot(#[trigger] out@[x], #[trigger] out@[y]) by {
                            assert(out@[x] == before[x]);
                            if y < before.len() {
                                assert(out@[y] == before[y]);
                            }
                        }
                        assert forall|j: int|
                            0 <= j < i + 1 && hopeful(*ranks, k, #[trigger] next@[j]) implies exists|w: int|
                                0 <= w < out@.len() && same_slot(#[trigger] out@[w], next@[j]) && out@[w].state.total_edits
                                    <= next@[j].state.total_edits by {
                            if j == i {
                                assert(same_slot(out@[before.len() as int], next@[j]));
                            } else {
                                let w = choose|w: int|
                                    0 <= w < before.len() && same_slot(#[trigger] before[w], next@[j]) && before[w].state.total_edits
                                        <= next@[j].state.total_edits;
                                assert(out@[w] == before[w]);
                            }
                        }
                    }
                }
            } else {
                proof {
                    assert(!hopeful(*ranks, k, next@[i as int]));
                }
            }
            proof {
                let out2 = if hopeful(*ranks, k, a) {
                    if exists|q: int| 0 <= q < out0.len() && #[trigger] same_slot(out0[q], a) {
                        let q = choose|q: int| 0 <= q < out0.len() && #[trigger] same_slot(out0[q], a);
                        if a.state.total_edits < out0[q].state.total_edits {
                            out0.update(q, a)
                        } else {
                            out0
                        }
                    } else {
                        out0.push(a)
                    }
                } else {
                    out0
                };
                assert(out@ == out2);
            }
            i = i + 1;
        }
        out
    }
}

/// The keys of `a`, in order: each state with its start.
pub open spec fn keys_of(a: Seq<ActiveState>) -> Seq<(State, usize)> {
    Seq::new(a.len(), |q: int| (a[q].state, a[q].start_byte))
}

/// The state that starts a match at character `i` of `t`.
pub open spec fn start_state_at(t: Seq<char>, i: int) -> ActiveState {
    ActiveState {
        state: State { pos: 0, total_edits: 0, insertions: 0, deletions: 0, substitutions: 0, swaps: 0, skip_next: false },
        start_byte: byte_offset(t, i) as usize,
        start_char: i as usize,
    }
}

/// The match that state `a` completes when the text has been read up to
/// byte `end`.
pub open spec fn match_of(a: ActiveState, end: int) -> EditMatch {
    EditMatch {
        start: a.start_byte,
        end: end as usize,
        insertions: a.state.insertions,
        deletions: a.state.deletions,
        substitutions: a.state.substitutions,
        swaps: a.state.swaps,
    }
}

impl DamLevNfa {
    /// State `a` has read the whole pattern, and its match, ending at byte
    /// `end`, scores at or above the threshold.
    pub open spec fn finishes(&self, ranks: SimilarityRanks, a: ActiveState, end: int) -> bool {
        &&& a.state.pos == self.spec_pattern_chars().len()
        &&& !a.state.skip_next
        &&& match_rank(ranks.finished@, self.spec_limits().max_edits, match_of(a, end)) >= ranks.threshold
    }

    /// The states before character `i` is read: those of `act` and, where a
    /// match may start, a new start state with its deletion closure.
    pub open spec fn with_start(&self, t: Seq<char>, sv: Option<Seq<usize>>, act: Seq<ActiveState>, i: int) -> Seq<
        ActiveState,
    > {
        if allowed_start(sv, byte_offset(t, i) as usize) {
            let a2 = act.push(start_state_at(t, i));
            self.closure_run(a2, a2.len() - 1, keys_of(a2)).0
        } else {
            act
        }
    }

    /// One step of the beam search at character `i`: start, step every
    /// state, close under deletion, keep the best state per slot, and prune
    /// to the beam.
    pub open spec fn advance(&self, t: Seq<char>, ranks: SimilarityRanks, sv: Option<Seq<usize>>, act: Seq<ActiveState>, i: int) -> Seq<
        ActiveState,
    > {
        let f = folded(t, self.spec_case_insensitive());
        let a1 = self.with_start(t, sv, act, i);
        let nxt = if i + 1 < t.len() {
            Some(f[i + 1])
        } else {
            None
        };
        let a2 = self.step_all(a1, f[i], nxt);
        let a3 = self.closure_run(a2, 0, seq![]).0;
        let a4 = keep_run(ranks, self.spec_limits().max_edits, a3, 0, seq![]);
        beam_kept(a4, self.spec_beam_width() as int)
    }

    /// Recording, from index `j` of `act` on, the match of every state that
    /// finishes at byte `end`.
    pub open spec fn record_all(&self, ranks: SimilarityRanks, ms: Seq<EditMatch>, act: Seq<ActiveState>, j: int, end: int) -> Seq<
        EditMatch,
    >
        decreases act.len() - j,
    {
        if j < 0 || j >= act.len() {
            ms
        } else {
            let ms2 = if self.finishes(ranks, act[j], end) {
                record_run(ms, match_of(act[j], end), ranks.finished@, self.spec_limits().max_edits)
            } else {
                ms
            };
            self.record_all(ranks, ms2, act, j + 1, end)
        }
    }

    /// From index `j` of `act` on, the finishing match whose score is placed
    /// highest (the first on ties), starting from `best`.
    pub open spec fn best_of(&self, ranks: SimilarityRanks, best: Option<EditMatch>, act: Seq<ActiveState>, j: int, end: int) -> Option<
        EditMatch,
    >
        decreases act.len() - j,
    {
        if j < 0 || j >= act.len() {
            best
        } else {
            let k = self.spec_limits().max_edits;
            let m = match_of(act[j], end);
            let best2 = if self.finishes(ranks, act[j], end) && match best {
                Some(b) => match_rank(ranks.finished@, k, m) > match_rank(ranks.finished@, k, b),
                None => true,
            } {
                Some(m)
            } else {
                best
            };
            self.best_of(ranks, best2, act, j + 1, end)
        }
    }

    /// The states of `act`, from index `j` on, still inside the pattern (or
    /// waiting) whose window since their start, up to character `i1`, is at
    /// most the pattern length plus the budget; appended to `out`.
    pub open spec fn survivors(&self, act: Seq<ActiveState>, j: int, i1: int, out: Seq<ActiveState>) -> Seq<ActiveState>
        decreases act.len() - j,
    {
        if j < 0 || j >= act.len() {
            out
        } else {
            let a = act[j];
            let out2 = if (a.state.pos < self.spec_pattern_chars().len() || a.state.skip_next) && i1 - a.start_char
                <= self.spec_pattern_chars().len() + self.spec_limits().max_edits {
                out.push(a)
            } else {
                out
            };
            self.survivors(act, j + 1, i1, out2)
        }
    }

    /// The match state `a` completes at the end of the text (at byte `end`)
    /// by deleting the rest of the pattern, when the limits allow it.
    pub open spec fn trail_match(&self, ranks: SimilarityRanks, a: ActiveState, end: int) -> Option<EditMatch> {
        let st = a.state;
        let rem = self.spec_pattern_chars().len() - st.pos;
        let k = self.spec_limits().max_edits;
        if !st.skip_next && rem <= k - st.total_edits && match self.spec_limits().max_deletions {
            Some(mx) => st.deletions + rem <= mx,
            None => true,
        } {
            let m = EditMatch { deletions: (st.deletions + rem) as u8, ..match_of(a, end) };
            if match_rank(ranks.finished@, k, m) >= ranks.threshold {
                Some(m)
            } else {
                None
            }
        } else {
            None
        }
    }

    /// At the end of the text: recording, from index `j` of `act` on, the
    /// matches the states complete by deleting the rest of the pattern.
    pub open spec fn trail_all(&self, ranks: SimilarityRanks, ms: Seq<EditMatch>, act: Seq<ActiveState>, j: int, end: int) -> Seq<
        EditMatch,
    >
        decreases act.len() - j,
    {
        if j < 0 || j >= act.len() {
            ms
        } else {
            let ms2 = match self.trail_match(ranks, act[j], end) {
                Some(m) => record_run(ms, m, ranks.finished@, self.spec_limits().max_edits),
                None => ms,
            };
            self.trail_all(ranks, ms2, act, j + 1, end)
        }
    }

    /// At the end of the text: the first match a state of `act`, from index
    /// `j` on, completes by deleting the rest of the pattern.
    pub open spec fn trail_first(&self, ranks: SimilarityRanks, act: Seq<ActiveState>, j: int, end: int) -> Option<EditMatch>
        decreases act.len() - j,
    {
        if j < 0 || j >= act.len() {
            None
        } else {
            match self.trail_match(ranks, act[j], end) {
                Some(m) => Some(m),
                None => self.trail_first(ranks, act, j + 1, end),
            }
        }
    }

    /// The beam search from character `i` on, with the states `act` under
    /// way and the matches `ms` recorded so far; with `first_only` it stops
    /// at the first character after which a state finishes.
    pub open spec fn search_from(
        &self,
        t: Seq<char>,
        ranks: SimilarityRanks,
        sv: Option<Seq<usize>>,
        first_only: bool,
        act: Seq<ActiveState>,
        ms: Seq<EditMatch>,
        i: int,
    ) -> Seq<EditMatch>
        decreases t.len() - i,
    {
        if i < 0 || i >= t.len() {
            let end = byte_offset(t, t.len() as int);
            if first_only {
                match self.trail_first(ranks, act, 0, end) {
                    Some(m) => seq![m],
                    None => seq![],
                }
            } else {
                self.trail_all(ranks, ms, act, 0, end)
            }
        } else {
            let end = byte_offset(t, i + 1);
            let a5 = self.advance(t, ranks, sv, act, i);
            let rest = self.survivors(a5, 0, i + 1, seq![]);
            if first_only {
                match self.best_of(ranks, None, a5, 0, end) {
                    Some(m) => seq![m],
                    None => self.search_from(t, ranks, sv, first_only, rest, ms, i + 1),
                }
            } else {
                self.search_from(t, ranks, sv, first_only, rest, self.record_all(ranks, ms, a5, 0, end), i + 1)
            }
        }
    }

    /// The beam search over `t` that the `find_*` methods run: matches start
    /// at every character, or only at the byte positions in `sv`; with
    /// `first_only` it reports the first match found.  An empty pattern
    /// gives one empty match at 0.
    pub open spec fn beam_search(&self, t: Seq<char>, ranks: SimilarityRanks, sv: Option<Seq<usize>>, first_only: bool) -> Seq<
        EditMatch,
    > {
        if self.spec_pattern_chars().len() == 0 {
            seq![EditMatch { start: 0, end: 0, insertions: 0, deletions: 0, substitutions: 0, swaps: 0 }]
        } else {
            self.search_from(t, ranks, sv, first_only, seq![], seq![], 0)
        }
    }
}

/// Recording a match never shrinks the list and leaves it non-empty.
proof fn lemma_record_run_len(ms: Seq<EditMatch>, m: EditMatch, finished: Seq<Vec<u32>>, k: u8)
    ensures
        record_run(ms, m, finished, k).len() >= ms.len(),
        record_run(ms, m, finished, k).len() > 0,
{
}

impl DamLevNfa {
    proof fn lemma_record_all_grows(&self, ranks: SimilarityRanks, ms: Seq<EditMatch>, act: Seq<ActiveState>, j: int, end: int)
        ensures
            self.record_all(ranks, ms, act, j, end).len() >= ms.len(),
        decreases act.len() - j,
    {
        if 0 <= j < act.len() {
            let ms2 = if self.finishes(ranks, act[j], end) {
                record_run(ms, match_of(act[j], end), ranks.finished@, self.spec_limits().max_edits)
            } else {
                ms
            };
            lemma_record_run_len(ms, match_of(act[j], end), ranks.finished@, self.spec_limits().max_edits);
            self.lemma_record_all_grows(ranks, ms2, act, j + 1, end);
        }
    }

    proof fn lemma_best_of_keeps(&self, ranks: SimilarityRanks, b: EditMatch, act: Seq<ActiveState>, j: int, end: int)
        ensures
            self.best_of(ranks, Some(b), act, j, end) is Some,
        decreases act.len() - j,
    {
        if 0 <= j < act.len() {
            let k = self.spec_limits().max_edits;
            let m = match_of(act[j], end);
            if self.finishes(ranks, act[j], end) && match_rank(ranks.finished@, k, m) > match_rank(ranks.finished@, k, b) {
                self.lemma_best_of_keeps(ranks, m, act, j + 1, end);
            } else {
                self.lemma_best_of_keeps(ranks, b, act, j + 1, end);
            }
        }
    }

    /// Recording the finishing states leaves no match exactly when there was
    /// none before and no state finishes.
    proof fn lemma_record_all_empty(&self, ranks: SimilarityRanks, ms: Seq<EditMatch>, act: Seq<ActiveState>, j: int, end: int)
        ensures
            (self.record_all(ranks, ms, act, j, end).len() == 0) == (ms.len() == 0 && self.best_of(ranks, None, act, j, end) is None),
        decreases act.len() - j,
    {
        if 0 <= j < act.len() {
            let m = match_of(act[j], end);
            if self.finishes(ranks, act[j], end) {
                let ms2 = record_run(ms, m, ranks.finished@, self.spec_limits().max_edits);
                lemma_record_run_len(ms, m, ranks.finished@, self.spec_limits().max_edits);
                self.lemma_record_all_grows(ranks, ms2, act, j + 1, end);
                self.lemma_best_of_keeps(ranks, m, act, j + 1, end);
            } else {
                self.lemma_record_all_empty(ranks, ms, act, j + 1, end);
            }
        }
    }

    proof fn lemma_trail_all_grows(&self, ranks: SimilarityRanks, ms: Seq<EditMatch>, act: Seq<ActiveState>, j: int, end: int)
        ensures
            self.trail_all(ranks, ms, act, j, end).len() >= ms.len(),
        decreases act.len() - j,
    {
        if 0 <= j < act.len() {
            match self.trail_match(ranks, act[j], end) {
                Some(m) => {
                    lemma_record_run_len(ms, m, ranks.finished@, self.spec_limits().max_edits);
                    self.lemma_trail_all_grows(
                        ranks,
                        record_run(ms, m, ranks.finished@, self.spec_limits().max_edits),
                        act,
                        j + 1,
                        end,
                    );
                },
                None => {
                    self.lemma_trail_all_grows(ranks, ms, act, j + 1, end);
                },
            }
        }
    }

    proof fn lemma_trail_all_empty(&self, ranks: SimilarityRanks, ms: Seq<EditMatch>, act: Seq<ActiveState>, j: int, end: int)
        ensures
            (self.trail_all(ranks, ms, act, j, end).len() == 0) == (ms.len() == 0 && self.trail_first(ranks, act, j, end) is None),
        decreases act.len() - j,
    {
        if 0 <= j < act.len() {
            match self.trail_match(ranks, act[j], end) {
                Some(m) => {
                    let ms2 = record_run(ms, m, ranks.finished@, self.spec_limits().max_edits);
                    lemma_record_run_len(ms, m, ranks.finished@, self.spec_limits().max_edits);
                    self.lemma_trail_all_grows(ranks, ms2, act, j + 1, end);
                },
                None => {
                    self.lemma_trail_all_empty(ranks, ms, act, j + 1, end);
                },
            }
        }
    }

    /// The search for the first match does not look at the matches recorded.
    proof fn lemma_first_ignores_recorded(
        &self,
        t: Seq<char>,
        ranks: SimilarityRanks,
        sv: Option<Seq<usize>>,
        act: Seq<ActiveState>,
        ms1: Seq<EditMatch>,
        ms2: Seq<EditMatch>,
        i: int,
    )
        ensures
            self.search_from(t, ranks, sv, true, act, ms1, i) == self.search_from(t, ranks, sv, true, act, ms2, i),
        decreases t.len() - i,
    {
        if 0 <= i < t.len() {
            let a5 = self.advance(t, ranks, sv, act, i);
            let rest = self.survivors(a5, 0, i + 1, seq![]);
            self.lemma_first_ignores_recorded(t, ranks, sv, rest, ms1, ms2, i + 1);
        }
    }

    proof fn lemma_search_from_empty(
        &self,
        t: Seq<char>,
        ranks: SimilarityRanks,
        sv: Option<Seq<usize>>,
        act: Seq<ActiveState>,
        ms: Seq<EditMatch>,
        i: int,
    )
        ensures
            (self.search_from(t, ranks, sv, false, act, ms, i).len() == 0) == (ms.len() == 0 && self.search_from(
                t,
                ranks,
                sv,
                true,
                act,
                ms,
                i,
            ).len() == 0),
        decreases t.len() - i,
    {
        if i < 0 || i >= t.len() {
            let end = byte_offset(t, t.len() as int);
            self.lemma_trail_all_empty(ranks, ms, act, 0, end);
        } else {
            let end = byte_offset(t, i + 1);
            let a5 = self.advance(t, ranks, sv, act, i);
            let rest = self.survivors(a5, 0, i + 1, seq![]);
            let ms2 = self.record_all(ranks, ms, a5, 0, end);
            self.lemma_search_from_empty(t, ranks, sv, rest, ms2, i + 1);
            self.lemma_record_all_empty(ranks, ms, a5, 0, end);
            self.lemma_first_ignores_recorded(t, ranks, sv, rest, ms2, ms, i + 1);
        }
    }

    /// The search for the first match finds one exactly when the search for
    /// all matches finds any, with or without candidate start positions.
    pub proof fn lemma_first_found_iff_any(&self, t: Seq<char>, ranks: SimilarityRanks, sv: Option<Seq<usize>>)
        ensures
            (first_match_of(self.beam_search(t, ranks, sv, true)) is Some) == (self.beam_search(t, ranks, sv, false).len()
                > 0),
    {
        if self.spec_pattern_chars().len() > 0 {
            self.lemma_search_from_empty(t, ranks, sv, seq![], seq![], 0);
        }
    }

    /// The earliest of all matches exists exactly when there is a match, and
    /// it is one of them.
    pub proof fn lemma_earliest_found_iff_any(&self, t: Seq<char>, ranks: SimilarityRanks)
        ensures
            (earliest_of(self.beam_search(t, ranks, None, false)) is Some) == (self.beam_search(t, ranks, None, false).len()
                > 0),
            earliest_of(self.beam_search(t, ranks, None, false)) matches Some(m) ==> self.beam_search(
                t,
                ranks,
                None,
                false,
            ).contains(m),
    {
        lemma_earliest_member(self.beam_search(t, ranks, None, false));
    }
}

/// The earliest element of `s` is a leftmost one: no element starts before
/// it, none starting where it starts has fewer edits, and none with the same
/// start and edits ends before it.
pub proof fn lemma_earliest_leftmost_fewest(s: Seq<EditMatch>)
    ensures
        earliest_of(s) matches Some(m) ==> forall|i: int|
            0 <= i < s.len() ==> m.start <= (#[trigger] s[i]).start && (s[i].start == m.start ==> edits_of(m) <= edits_of(
                s[i],
            )) && (s[i].start == m.start && edits_of(s[i]) == edits_of(m) ==> m.end <= s[i].end),
    decreases s.len(),
{
    if s.len() > 0 {
        let d = s.drop_last();
        lemma_earliest_leftmost_fewest(d);
        let x = s.last();
        match earliest_of(d) {
            None => {
                assert(d.len() == 0) by {
                    lemma_earliest_member(d);
                }
                assert(earliest_of(s) == Some(x));
                assert forall|i: int| 0 <= i < s.len() implies x.start <= (#[trigger] s[i]).start && (s[i].start
                    == x.start ==> edits_of(x) <= edits_of(s[i])) && (s[i].start == x.start && edits_of(s[i]) == edits_of(x)
                    ==> x.end <= s[i].end) by {
                    assert(i == s.len() - 1);
                }
            },
            Some(b) => {
                let m = earliest_of(s)->0;
                assert forall|i: int| 0 <= i < s.len() implies m.start <= (#[trigger] s[i]).start && (s[i].start
                    == m.start ==> edits_of(m) <= edits_of(s[i])) && (s[i].start == m.start && edits_of(s[i]) == edits_of(m)
                    ==> m.end <= s[i].end) by {
                    if i < s.len() - 1 {
                        assert(s[i] == d[i]);
                        assert(b.start <= d[i].start && (d[i].start == b.start ==> edits_of(b) <= edits_of(d[i])) && (
                        d[i].start == b.start && edits_of(d[i]) == edits_of(b) ==> b.end <= d[i].end));
                    } else {
                        assert(s[i] == x);
                    }
                }
            },
        }
    }
}

/// The earliest element of `s` exists exactly when `s` is non-empty, and it
/// is an element of `s`.
pub proof fn lemma_earliest_member(s: Seq<EditMatch>)
    ensures
        (earliest_of(s) is Some) == (s.len() > 0),
        earliest_of(s) matches Some(m) ==> s.contains(m),
    decreases s.len(),
{
    if s.len() > 0 {
        lemma_earliest_member(s.drop_last());
        if let Some(b) = earliest_of(s.drop_last()) {
            let q = choose|q: int| 0 <= q < s.drop_last().len() && s.drop_last()[q] == b;
            assert(s[q] == b);
        }
        assert(s[s.len() - 1] == s.last());
    }
}

impl DamLevNfa {
    /// All approximate matches of the pattern in `text`, at most one per byte
    /// span.  The automaton reads the text character by character, starting a
    /// match at every character; a state whose best reachable score is placed
    /// below the threshold is dropped, of states sharing pattern position,
    /// start and waiting flag the one with fewest edits is kept, and the beam
    /// limits how many survive.  A state that reaches the end of the pattern
    /// records a match if its score reaches the threshold (replacing a recorded
    /// match of the same span with a lower-placed score); at the end of the text
    /// the states still inside the pattern may finish by deleting the rest of
    /// it.  An empty pattern gives one empty match at 0.
    pub fn find_all(&self, text: &str, ranks: &SimilarityRanks) -> (r: Vec<EditMatch>)
        ensures
            self.spec_pattern_chars().len() == 0 ==> r@ == seq![
                EditMatch { start: 0, end: 0, insertions: 0, deletions: 0, substitutions: 0, swaps: 0 },
            ],
            forall|i: int, j: int| 0 <= i < j < r@.len() ==> !same_span(#[trigger] r@[i], #[trigger] r@[j]),
            0 < self.spec_pattern_chars().len() ==> forall|i: int|
                0 <= i < r@.len() ==> self.found(text@, *ranks, #[trigger] r@[i]),
            r@ == self.beam_search(text@, *ranks, None, false),
    {
        let mut buffers = SearchBuffers::new();
        self.find_all_buffered(text, ranks, &mut buffers)
    }

    /// `find_all` using the caller's scratch buffers, which it clears first.
    pub fn find_all_buffered(&self, text: &str, ranks: &SimilarityRanks, buffers: &mut SearchBuffers) -> (r: Vec<EditMatch>)
        ensures
            self.spec_pattern_chars().len() == 0 ==> r@ == seq![
                EditMatch { start: 0, end: 0, insertions: 0, deletions: 0, substitutions: 0, swaps: 0 },
            ],
            forall|i: int, j: int| 0 <= i < j < r@.len() ==> !same_span(#[trigger] r@[i], #[trigger] r@[j]),
            0 < self.spec_pattern_chars().len() ==> forall|i: int|
                0 <= i < r@.len() ==> self.found(text@, *ranks, #[trigger] r@[i]),
            r@ == self.beam_search(text@, *ranks, None, false),
    {
        self.search(text, ranks, None, false, buffers)
    }

    /// `find_all`, starting matches only at the byte positions in `candidates`.
    pub fn find_all_with_candidates(&self, text: &str, ranks: &SimilarityRanks, candidates: &Vec<usize>) -> (r: Vec<
        EditMatch,
    >)
        ensures
            self.spec_pattern_chars().len() == 0 ==> r@ == seq![
                EditMatch { start: 0, end: 0, insertions: 0, deletions: 0, substitutions: 0, swaps: 0 },
            ],
            forall|i: int, j: int| 0 <= i < j < r@.len() ==> !same_span(#[trigger] r@[i], #[trigger] r@[j]),
            0 < self.spec_pattern_chars().len() ==> forall|i: int|
                0 <= i < r@.len() ==> self.found(text@, *ranks, #[trigger] r@[i]) && candidates@.contains(r@[i].start),
            r@ == self.beam_search(text@, *ranks, Some(candidates@), false),
    {
        let mut buffers = SearchBuffers::new();
        self.find_all_with_candidates_buffered(text, ranks, candidates, &mut buffers)
    }

    /// `find_all_with_candidates` using the caller's scratch buffers.
    pub fn find_all_with_candidates_buffered(
        &self,
        text: &str,
        ranks: &SimilarityRanks,
        candidates: &Vec<usize>,
        buffers: &mut SearchBuffers,
    ) -> (r: Vec<EditMatch>)
        ensures
            self.spec_pattern_chars().len() == 0 ==> r@ == seq![
                EditMatch { start: 0, end: 0, insertions: 0, deletions: 0, substitutions: 0, swaps: 0 },
            ],
            forall|i: int, j: int| 0 <= i < j < r@.len() ==> !same_span(#[trigger] r@[i], #[trigger] r@[j]),
            0 < self.spec_pattern_chars().len() ==> forall|i: int|
                0 <= i < r@.len() ==> self.found(text@, *ranks, #[trigger] r@[i]) && candidates@.contains(r@[i].start),
            r@ == self.beam_search(text@, *ranks, Some(candidates@), false),
    {
        self.search(text, ranks, Some(candidates), false, buffers)
    }

    /// The first match found when matches start only at the byte positions in
    /// `candidates`: at the first text position where states finish, the one
    /// whose score is placed highest (the first on ties); failing that, the
    /// first state to finish by deleting the rest of the pattern at the end.
    pub fn find_first_with_candidates(&self, text: &str, ranks: &SimilarityRanks, candidates: &Vec<usize>) -> (r:
        Option<EditMatch>)
        ensures
            self.spec_pattern_chars().len() == 0 ==> r == Some(
                EditMatch { start: 0, end: 0, insertions: 0, deletions: 0, substitutions: 0, swaps: 0 },
            ),
            0 < self.spec_pattern_chars().len() ==> (r matches Some(m) ==> self.found(text@, *ranks, m)
                && candidates@.contains(m.start)),
            r == first_match_of(self.beam_search(text@, *ranks, Some(candidates@), true)),
    {
        let mut buffers = SearchBuffers::new();
        self.find_first_with_candidates_buffered(text, ranks, candidates, &mut buffers)
    }

    /// `find_first_with_candidates` using the caller's scratch buffers.
    pub fn find_first_with_candidates_buffered(
        &self,
        text: &str,
        ranks: &SimilarityRanks,
        candidates: &Vec<usize>,
        buffers: &mut SearchBuffers,
    ) -> (r: Option<EditMatch>)
        ensures
            self.spec_pattern_chars().len() == 0 ==> r == Some(
                EditMatch { start: 0, end: 0, insertions: 0, deletions: 0, substitutions: 0, swaps: 0 },
            ),
            0 < self.spec_pattern_chars().len() ==> (r matches Some(m) ==> self.found(text@, *ranks, m)
                && candidates@.contains(m.start)),
            r == first_match_of(self.beam_search(text@, *ranks, Some(candidates@), true)),
    {
        let found = self.search(text, ranks, Some(candidates), true, buffers);
        if found.len() > 0 {
            Some(found[0])
        } else {
            None
        }
    }

    /// The search behind the `find_*` methods: matches start at every
    /// character, or only at the byte positions in `starts`; with `first_only`
    /// it stops at the first text position where a match finishes.
    #[verifier::rlimit(80)]
    fn search(
        &self,
        text: &str,
        ranks: &SimilarityRanks,
        starts: Option<&Vec<usize>>,
        first_only: bool,
        buffers: &mut SearchBuffers,
    ) -> (r: Vec<EditMatch>)
        ensures
            first_only ==> r@.len() <= 1,
            0 < self.spec_pattern_chars().len() ==> forall|i: int|
                0 <= i < r@.len() ==> (starts matches Some(v) ==> v@.contains(#[trigger] r@[i].start)),
            self.spec_pattern_chars().len() == 0 ==> r@ == seq![
                EditMatch { start: 0, end: 0, insertions: 0, deletions: 0, substitutions: 0, swaps: 0 },
            ],
            forall|i: int, j: int| 0 <= i < j < r@.len() ==> !same_span(#[trigger] r@[i], #[trigger] r@[j]),
            0 < self.spec_pattern_chars().len() ==> forall|i: int|
                0 <= i < r@.len() ==> self.found(text@, *ranks, #[trigger] r@[i]),
            r@ == self.beam_search(text@, *ranks, (match starts {
                Some(v) => Some(v@),
                None => None,
            }), first_only),
    {
        let n_p = self.pattern_chars.len();
        buffers.clear();
        let mut matches: Vec<EditMatch> = Vec::new();
        if n_p == 0 {
            matches.push(EditMatch { start: 0, end: 0, insertions: 0, deletions: 0, substitutions: 0, swaps: 0 });
            return matches;
        }
        let ghost p = self.spec_pattern_chars();
        let ghost t = text@;
        let ghost ci = self.spec_case_insensitive();
        let ghost lim = self.spec_limits();
        let ghost f = folded(t, ci);
        let ghost sv: Option<Seq<usize>> = match starts {
            Some(v) => Some(v@),
            None => None,
        };
        let (cs, offs) = decode_text(text);
        let n = cs.len();
        let k = self.limits.max_edits;
        let ghost target = self.beam_search(t, *ranks, sv, first_only);
        proof {
            assert(buffers.active@ == Seq::<ActiveState>::empty());
            assert(target == self.search_from(t, *ranks, sv, first_only, buffers.active@, matches@, 0));
        }
        let mut char_idx: usize = 0;
        while char_idx < n
            invariant
                n_p == p.len(),
                n_p > 0,
                p == self.spec_pattern_chars(),
                t == text@,
                ci == self.spec_case_insensitive(),
                lim == self.spec_limits(),
                k == lim.max_edits,
                f == folded(t, ci),
                cs@ == t,
                n == t.len(),
                offsets_of(t, offs@),
                0 <= char_idx <= n,
                sv == (match starts {
                    Some(v) => Some(v@),
                    None => None,
                }),
                first_only ==> matches@.len() == 0,
                target == self.beam_search(t, *ranks, sv, first_only),
                target == self.search_from(t, *ranks, sv, first_only, buffers.active@, matches@, char_idx as int),
                forall|i: int| 0 <= i < matches@.len() ==> allowed_start(sv, (#[trigger] matches@[i]).start),
                forall|j: int| 0 <= j < buffers.active@.len() ==> live(p, t, ci, lim, sv, char_idx as int, #[trigger] buffers.active@[j]),
                forall|j: int| 0 <= j < buffers.active@.len() ==> (#[trigger] buffers.active@[j]).start_char < char_idx,
                forall|i: int, j: int| 0 <= i < j < matches@.len() ==> !same_span(#[trigger] matches@[i], #[trigger] matches@[j]),
                forall|i: int| 0 <= i < matches@.len() ==> self.found(t, *ranks, #[trigger] matches@[i]),
                forall|i: int| 0 <= i < matches@.len() ==> (#[trigger] matches@[i]).deletions <= k,
            decreases n - char_idx,
        {
            let raw = cs[char_idx];
            let c = if self.case_insensitive {
                to_lower_char(raw)
            } else {
                raw
            };
            let next: Option<char> = if char_idx + 1 < n {
                let raw2 = cs[char_idx + 1];
                Some(
                    if self.case_insensitive {
                        to_lower_char(raw2)
                    } else {
                        raw2
                    },
                )
            } else {
                None
            };
            let ghost act_in = buffers.active@;
            let ghost m_in = matches@;
            let ghost idx0 = char_idx as int;
            let start_here = match starts {
                Some(v) => contains_pos(v, offs[char_idx]),
                None => true,
            };
            assert(start_here == allowed_start(sv, byte_offset(t, char_idx as int) as usize));
            if start_here {
                let init = ActiveState { state: State::new(0), start_byte: offs[char_idx], start_char: char_idx };
                proof {
                    assert(aligned(p, f, char_idx as int, char_idx as int, 0, 0, 0, 0, 0));
                    assert(live(p, t, ci, lim, sv, char_idx as int, init));
                }
                let ghost pre_push = buffers.active@;
                buffers.active.push(init);
                proof {
                    assert forall|j: int| 0 <= j < buffers.active@.len() implies live(p, t, ci, lim, sv, char_idx as int, #[trigger] buffers.active@[j]) by {
                        if j < pre_push.len() {
                            assert(buffers.active@[j] == pre_push[j]);
                        }
                    }
                }
                let start_idx = buffers.active.len() - 1;
                buffers.seen_set.clear();
                let ghost act0 = buffers.active@;
                proof {
                    assert(init == start_state_at(t, char_idx as int));
                    assert(act0 == act_in.push(start_state_at(t, char_idx as int)));
                    assert(buffers.seen_set@ =~= keys_of(act0).take(0));
                }
                let mut q: usize = 0;
                while q < buffers.active.len()
                    invariant
                        0 <= q <= buffers.active@.len(),
                        buffers.active@ == act0,
                        buffers.seen_set@ == keys_of(act0).take(q as int),
                    decreases buffers.active@.len() - q,
                {
                    buffers.seen_set.push((buffers.active[q].state, buffers.active[q].start_byte));
                    proof {
                        assert(buffers.seen_set@ =~= keys_of(act0).take(q + 1));
                    }
                    q = q + 1;
                }
                proof {
                    assert(buffers.seen_set@ =~= keys_of(act0));
                }
                let ghost before = buffers.active@;
                self.epsilon_closure_from(&mut buffers.active, start_idx, &mut buffers.seen_set);
                proof {
                    assert forall|j: int| start_idx <= j < before.len() implies live(p, t, ci, lim, sv, char_idx as int, #[trigger] buffers.active@[j]) by {
                        assert(buffers.active@[j] == before[j]);
                    }
                    self.lemma_closure_live(t, sv, char_idx as int, buffers.active@, start_idx as int, before.len() as int, buffers.active@.len() as int);
                    assert forall|j: int| 0 <= j < buffers.active@.len() implies live(p, t, ci, lim, sv, char_idx as int, #[trigger] buffers.active@[j]) by {
                        if j < start_idx {
                            assert(buffers.active@[j] == before[j]);
                        }
                    }
                }
            }
            let ghost a1 = buffers.active@;
            assert(a1 == self.with_start(t, sv, act_in, char_idx as int));
            buffers.next_active = self.step_states(text, Ghost(sv), char_idx, &buffers.active, c, next);
            buffers.seen_set.clear();
            let ghost before2 = buffers.next_active@;
            self.epsilon_closure(&mut buffers.next_active, &mut buffers.seen_set);
            proof {
                assert forall|j: int| 0 <= j < before2.len() implies live(p, t, ci, lim, sv, char_idx + 1, #[trigger] buffers.next_active@[j]) by {
                    assert(buffers.next_active@[j] == before2[j]);
                }
                self.lemma_closure_live(t, sv, char_idx + 1, buffers.next_active@, 0, before2.len() as int, buffers.next_active@.len() as int);
                assert forall|j: int| 0 <= j < before2.len() implies (#[trigger] buffers.next_active@[j]).start_char <= char_idx by {
                    assert(buffers.next_active@[j] == before2[j]);
                }
                self.lemma_closure_start_bound(buffers.next_active@, 0, before2.len() as int, buffers.next_active@.len() as int, char_idx as int);
                assert forall|j: int| 0 <= j < buffers.next_active@.len() implies (#[trigger] buffers.next_active@[j]).state.deletions <= k by {
                    assert(live(p, t, ci, lim, sv, char_idx + 1, buffers.next_active@[j]));
                }
            }
            buffers.active = self.keep_best(ranks, &buffers.next_active);
            let ghost before3 = buffers.active@;
            self.beam_prune(&mut buffers.active);
            let ghost a5 = buffers.active@;
            let ghost m0 = matches@;
            assert(a5 == self.advance(t, *ranks, sv, act_in, char_idx as int));
            proof {
                assert forall|j: int| 0 <= j < buffers.active@.len() implies live(p, t, ci, lim, sv, char_idx + 1, #[trigger] buffers.active@[j]) by {
                    if before3.len() <= 2 * self.spec_beam_width() {
                        assert(buffers.active@[j] == before3[j]);
                    }
                    assert(before3.contains(buffers.active@[j]));
                    let w = choose|w: int| 0 <= w < before3.len() && before3[w] == buffers.active@[j];
                    assert(buffers.next_active@.contains(before3[w]));
                }
                assert forall|j: int| 0 <= j < buffers.active@.len() implies (#[trigger] buffers.active@[j]).start_char <= char_idx by {
                    if before3.len() <= 2 * self.spec_beam_width() {
                        assert(buffers.active@[j] == before3[j]);
                    }
                    assert(before3.contains(buffers.active@[j]));
                    let w = choose|w: int| 0 <= w < before3.len() && before3[w] == buffers.active@[j];
                    assert(buffers.next_active@.contains(before3[w]));
                }
            }
            let end_byte = offs[char_idx + 1];
            let mut best: Option<EditMatch> = None;
            let mut best_rank: u32 = 0;
            let mut q2: usize = 0;
            while q2 < buffers.active.len()
                invariant
                    0 <= q2 <= buffers.active@.len(),
                    buffers.active@ == a5,
                    !first_only ==> self.record_all(*ranks, m0, a5, 0, end_byte as int) == self.record_all(
                        *ranks,
                        matches@,
                        a5,
                        q2 as int,
                        end_byte as int,
                    ),
                    first_only ==> self.best_of(*ranks, None, a5, 0, end_byte as int) == self.best_of(
                        *ranks,
                        best,
                        a5,
                        q2 as int,
                        end_byte as int,
                    ),
                    best matches Some(b) ==> best_rank as int == match_rank(ranks.finished@, k, b),
                    first_only ==> matches@.len() == 0,
                    !first_only ==> best is None,
                    best matches Some(bm) ==> self.found(t, *ranks, bm) && allowed_start(sv, bm.start) && bm.deletions <= k,
                    forall|i: int| 0 <= i < matches@.len() ==> allowed_start(sv, (#[trigger] matches@[i]).start),
                    n_p == p.len(),
                    p == self.spec_pattern_chars(),
                    t == text@,
                    ci == self.spec_case_insensitive(),
                    lim == self.spec_limits(),
                    k == lim.max_edits,
                    f == folded(t, ci),
                    n == t.len(),
                    char_idx < n,
                    end_byte == byte_offset(t, char_idx + 1),
                    forall|j: int| 0 <= j < buffers.active@.len() ==> live(p, t, ci, lim, sv, char_idx + 1, #[trigger] buffers.active@[j]),
                    forall|j: int| 0 <= j < buffers.active@.len() ==> (#[trigger] buffers.active@[j]).start_char <= char_idx,
                    forall|i: int, j: int| 0 <= i < j < matches@.len() ==> !same_span(#[trigger] matches@[i], #[trigger] matches@[j]),
                    forall|i: int| 0 <= i < matches@.len() ==> self.found(t, *ranks, #[trigger] matches@[i]),
                    forall|i: int| 0 <= i < matches@.len() ==> (#[trigger] matches@[i]).deletions <= k,
                decreases buffers.active@.len() - q2,
            {
                let a = buffers.active[q2];
                assert(live(p, t, ci, lim, sv, char_idx + 1, buffers.active@[q2 as int]));
                let ghost ms_before = matches@;
                let ghost best_before = best;
                if a.state.pos == n_p && !a.state.skip_next {
                    let m = EditMatch {
                        start: a.start_byte,
                        end: end_byte,
                        insertions: a.state.insertions,
                        deletions: a.state.deletions,
                        substitutions: a.state.substitutions,
                        swaps: a.state.swaps,
                    };
                    let rk = score_rank(&ranks.finished, k, &m);
                    if rk >= ranks.threshold {
                        proof {
                            let s0 = a.start_char as int;
                            let e0 = char_idx + 1;
                            assert(a.start_char <= char_idx);
                            lemma_offset_strict(t, s0, e0);
                            assert(0 <= s0 < e0 <= t.len() && byte_offset(t, s0) == m.start && byte_offset(t, e0) == m.end
                                && aligned(p, f, s0, e0, p.len() as int, m.insertions as int, m.deletions as int,
                                m.substitutions as int, m.swaps as int));
                            assert(self.found(t, *ranks, m));
                        }
                        if first_only {
                            let replace = match best {
                                Some(_) => rk > best_rank,
                                None => true,
                            };
                            if replace {
                                best = Some(m);
                                best_rank = rk;
                            }
                        } else {
                            let ghost old_m = matches@;
                            record_match(&mut matches, m, &ranks.finished, k);
                            proof {
                                assert forall|i: int| 0 <= i < matches@.len() implies self.found(t, *ranks, #[trigger] matches@[i])
                                    && allowed_start(sv, matches@[i].start) by {
                                    if matches@[i] != m {
                                        let w = choose|w: int| 0 <= w < old_m.len() && old_m[w] == matches@[i];
                                        assert(self.found(t, *ranks, old_m[w]));
                                        assert(allowed_start(sv, old_m[w].start));
                                    }
                                }
                            }
                        }
                    }
                }
                proof {
                    let mm = match_of(a, end_byte as int);
                    let fin = self.finishes(*ranks, a, end_byte as int);
                    if !first_only {
                        assert(matches@ == (if fin {
                            record_run(ms_before, mm, ranks.finished@, k)
                        } else {
                            ms_before
                        }));
                    } else {
                        assert(best == (if fin && match best_before {
                            Some(b) => match_rank(ranks.finished@, k, mm) > match_rank(ranks.finished@, k, b),
                            None => true,
                        } {
                            Some(mm)
                        } else {
                            best_before
                        }));
                    }
                }
                q2 = q2 + 1;
            }
            if let Some(bm) = best {
                let mut out: Vec<EditMatch> = Vec::new();
                out.push(bm);
                proof {
                    assert(first_only);
                    assert(self.best_of(*ranks, None, a5, 0, end_byte as int) == Some(bm));
                    assert(end_byte as int == byte_offset(t, idx0 + 1));
                    assert(target == seq![bm]);
                    assert(out@ =~= seq![bm]);
                }
                return out;
            }
            let max_window: u128 = n_p as u128 + k as u128;
            let mut survivors: Vec<ActiveState> = Vec::new();
            let mut q3: usize = 0;
            while q3 < buffers.active.len()
                invariant
                    0 <= q3 <= buffers.active@.len(),
                    buffers.active@ == a5,
                    n_p == self.spec_pattern_chars().len(),
                    k == self.spec_limits().max_edits,
                    max_window == n_p + k,
                    self.survivors(a5, 0, char_idx + 1, seq![]) == self.survivors(a5, q3 as int, char_idx + 1, survivors@),
                    n_p == p.len(),
                    char_idx < n,
                    forall|j: int| 0 <= j < buffers.active@.len() ==> live(p, t, ci, lim, sv, char_idx + 1, #[trigger] buffers.active@[j]),
                    forall|j: int| 0 <= j < survivors@.len() ==> live(p, t, ci, lim, sv, char_idx + 1, #[trigger] survivors@[j]),
                    forall|j: int| 0 <= j < buffers.active@.len() ==> (#[trigger] buffers.active@[j]).start_char <= char_idx,
                    forall|j: int| 0 <= j < survivors@.len() ==> (#[trigger] survivors@[j]).start_char <= char_idx,
                decreases buffers.active@.len() - q3,
            {
                let a = buffers.active[q3];
                assert(live(p, t, ci, lim, sv, char_idx + 1, buffers.active@[q3 as int]));
                let ghost sv_before = survivors@;
                if (a.state.pos < n_p || a.state.skip_next) && ((char_idx + 1 - a.start_char) as u128) <= max_window {
                    survivors.push(a);
                }
                proof {
                    assert(survivors@ == (if (a.state.pos < n_p || a.state.skip_next) && char_idx + 1 - a.start_char <= n_p + k {
                        sv_before.push(a)
                    } else {
                        sv_before
                    }));
                }
                q3 = q3 + 1;
            }
            buffers.active = survivors;
            char_idx = char_idx + 1;
            proof {
                assert(end_byte as int == byte_offset(t, idx0 + 1));
                assert(buffers.active@ == self.survivors(a5, 0, idx0 + 1, seq![]));
                if first_only {
                    assert(self.best_of(*ranks, None, a5, 0, end_byte as int) is None);
                    assert(matches@ == m_in);
                } else {
                    assert(matches@ == self.record_all(*ranks, m_in, a5, 0, end_byte as int));
                }
                assert(self.search_from(t, *ranks, sv, first_only, act_in, m_in, idx0) == self.search_from(
                    t,
                    *ranks,
                    sv,
                    first_only,
                    buffers.active@,
                    matches@,
                    char_idx as int,
                ));
            }
        }
        let ghost a_end = buffers.active@;
        let ghost m_end = matches@;
        let text_len = offs[n];
        let mut q4: usize = 0;
        while q4 < buffers.active.len()
            invariant
                0 <= q4 <= buffers.active@.len(),
                n_p == p.len(),
                n_p > 0,
                p == self.spec_pattern_chars(),
                t == text@,
                ci == self.spec_case_insensitive(),
                lim == self.spec_limits(),
                k == lim.max_edits,
                f == folded(t, ci),
                n == t.len(),
                text_len == byte_offset(t, n as int),
                forall|j: int| 0 <= j < buffers.active@.len() ==> live(p, t, ci, lim, sv, n as int, #[trigger] buffers.active@[j]),
                forall|i: int, j: int| 0 <= i < j < matches@.len() ==> !same_span(#[trigger] matches@[i], #[trigger] matches@[j]),
                forall|i: int| 0 <= i < matches@.len() ==> self.found(t, *ranks, #[trigger] matches@[i]),
                forall|i: int| 0 <= i < matches@.len() ==> (#[trigger] matches@[i]).deletions <= k,
                forall|i: int| 0 <= i < matches@.len() ==> allowed_start(sv, (#[trigger] matches@[i]).start),
                first_only ==> matches@.len() == 0,
                buffers.active@ == a_end,
                forall|j: int| 0 <= j < buffers.active@.len() ==> (#[trigger] buffers.active@[j]).start_char < n,
                !first_only ==> self.trail_all(*ranks, m_end, a_end, 0, text_len as int) == self.trail_all(
                    *ranks,
                    matches@,
                    a_end,
                    q4 as int,
                    text_len as int,
                ),
                first_only ==> self.trail_first(*ranks, a_end, 0, text_len as int) == self.trail_first(
                    *ranks,
                    a_end,
                    q4 as int,
                    text_len as int,
                ),
                target == self.beam_search(t, *ranks, sv, first_only),
                target == (if first_only {
                    match self.trail_first(*ranks, a_end, 0, text_len as int) {
                        Some(m) => seq![m],
                        None => seq![],
                    }
                } else {
                    self.trail_all(*ranks, m_end, a_end, 0, text_len as int)
                }),
                sv == (match starts {
                    Some(v) => Some(v@),
                    None => None,
                }),
            decreases buffers.active@.len() - q4,
        {
            let a = buffers.active[q4];
            let st = a.state;
            assert(live(p, t, ci, lim, sv, n as int, buffers.active@[q4 as int]));
            let ghost ms_before = matches@;
            if !st.skip_next {
                let rem: usize = n_p - st.pos;
                if rem <= (k - st.total_edits) as usize {
                    let remaining = rem as u8;
                    let total_dels = st.deletions + remaining;
                    let allowed = match self.limits.max_deletions {
                        Some(mx) => total_dels <= mx,
                        None => true,
                    };
                    if allowed {
                        let m = EditMatch {
                            start: a.start_byte,
                            end: text_len,
                            insertions: st.insertions,
                            deletions: total_dels,
                            substitutions: st.substitutions,
                            swaps: st.swaps,
                        };
                        let rk = score_rank(&ranks.finished, k, &m);
                        if rk >= ranks.threshold {
                            proof {
                                {
                                    let s0 = a.start_char as int;
                                    let cnt = counts_of(st);
                                    lemma_delete_rest(p, f, s0, n as int, st.pos as int, p.len() as int, cnt.0, cnt.1, cnt.2, cnt.3);
                                    assert(a.start_char < n);
                                    lemma_offset_strict(t, s0, n as int);
                                    assert(0 <= s0 < n <= t.len() && byte_offset(t, s0) == m.start && byte_offset(t, n as int) == m.end
                                        && aligned(p, f, s0, n as int, p.len() as int, m.insertions as int, m.deletions as int,
                                        m.substitutions as int, m.swaps as int));
                                    assert(self.found(t, *ranks, m));
                                }
                            }
                            if first_only {
                                let mut out: Vec<EditMatch> = Vec::new();
                                out.push(m);
                                proof {
                                    assert(a == a_end[q4 as int]);
                                    assert(self.trail_match(*ranks, a, text_len as int) == Some(m));
                                    assert(self.trail_first(*ranks, a_end, q4 as int, text_len as int) == Some(m));
                                    assert(target == seq![m]);
                                    assert(out@ =~= seq![m]);
                                }
                                return out;
                            }
                            let ghost old_m = matches@;
                            record_match(&mut matches, m, &ranks.finished, k);
                            proof {
                                assert forall|i: int| 0 <= i < matches@.len() implies self.found(t, *ranks, #[trigger] matches@[i])
                                    && allowed_start(sv, matches@[i].start) by {
                                    if matches@[i] != m {
                                        let w = choose|w: int| 0 <= w < old_m.len() && old_m[w] == matches@[i];
                                        assert(self.found(t, *ranks, old_m[w]));
                                        assert(allowed_start(sv, old_m[w].start));
                                    }
                                }
                            }
                        }
                    }
                }
            }
            proof {
                let tm = self.trail_match(*ranks, a, text_len as int);
                if !first_only {
                    assert(matches@ == (match tm {
                        Some(m) => record_run(ms_before, m, ranks.finished@, k),
                        None => ms_before,
                    }));
                } else {
                    assert(tm is None);
                }
            }
            q4 = q4 + 1;
        }
        matches
    }
}

/// Scratch space reused across searches: the live states, the states of the
/// next step, and the keys already expanded by the deletion closure.
pub struct SearchBuffers {
    active: Vec<ActiveState>,
    next_active: Vec<ActiveState>,
    seen_set: Vec<(State, usize)>,
}

impl SearchBuffers {
    /// Empty buffers.
    pub fn new() -> (r: Self)
        ensures
            r.is_empty(),
    {
        SearchBuffers { active: Vec::new(), next_active: Vec::new(), seen_set: Vec::new() }
    }

    /// All buffers hold nothing.
    pub closed spec fn is_empty(&self) -> bool {
        self.active@.len() == 0 && self.next_active@.len() == 0 && self.seen_set@.len() == 0
    }

    /// Empties all buffers for reuse.
    pub fn clear(&mut self)
        ensures
            final(self).is_empty(),
    {
        self.active.clear();
        self.next_active.clear();
        self.seen_set.clear();
    }
}

fn contains_pos(v: &Vec<usize>, x: usize) -> (r: bool)
    ensures
        r == v@.contains(x),
{
    let mut i: usize = 0;
    while i < v.len()
        invariant
            0 <= i <= v@.len(),
            forall|j: int| 0 <= j < i ==> v@[j] != x,
        decreases v@.len() - i,
    {
        if v[i] == x {
            return true;
        }
        i = i + 1;
    }
    false
}

/// The number of edits of a match.
pub open spec fn edits_of(m: EditMatch) -> int {
    m.insertions + m.deletions + m.substitutions + m.swaps
}

/// `a` comes strictly before `b` in the order of start, then edits, then end.
pub open spec fn strictly_before(a: EditMatch, b: EditMatch) -> bool {
    a.start < b.start || (a.start == b.start && (edits_of(a) < edits_of(b) || (edits_of(a) == edits_of(b) && a.end
        < b.end)))
}

/// The first element of `s`, if any.
pub open spec fn first_match_of(s: Seq<EditMatch>) -> Option<EditMatch> {
    if s.len() > 0 {
        Some(s[0])
    } else {
        None
    }
}

/// The first of `s` that no other precedes in the order of start, then edits,
/// then end.
pub open spec fn earliest_of(s: Seq<EditMatch>) -> Option<EditMatch>
    decreases s.len(),
{
    if s.len() == 0 {
        None
    } else {
        match earliest_of(s.drop_last()) {
            None => Some(s.last()),
            Some(b) => if strictly_before(s.last(), b) {
                Some(s.last())
            } else {
                Some(b)
            },
        }
    }
}

/// The first of `matches` that no other precedes in the order of start, then
/// edits, then end.
pub fn earliest_match(matches: &Vec<EditMatch>) -> (r: Option<EditMatch>)
    ensures
        r == earliest_of(matches@),
        r matches Some(m) ==> matches@.contains(m) && forall|i: int|
            0 <= i < matches@.len() ==> m.start <= (#[trigger] matches@[i]).start && (matches@[i].start == m.start
                ==> edits_of(m) <= edits_of(matches@[i])) && (matches@[i].start == m.start && edits_of(matches@[i])
                == edits_of(m) ==> m.end <= matches@[i].end),
        matches@.len() == 0 ==> r is None,
        matches@.len() > 0 ==> exists|i0: int|
            0 <= i0 < matches@.len() && r == Some(#[trigger] matches@[i0]) && (forall|j: int|
                0 <= j < i0 ==> strictly_before(matches@[i0], #[trigger] matches@[j])) && (forall|j: int|
                i0 < j < matches@.len() ==> !strictly_before(#[trigger] matches@[j], matches@[i0])),
{
    if matches.len() == 0 {
        return None;
    }
    proof {
        assert(matches@.take(1).drop_last() =~= Seq::<EditMatch>::empty());
        assert(earliest_of(Seq::<EditMatch>::empty()) is None);
        assert(matches@.take(1).last() == matches@[0]);
        assert(earliest_of(matches@.take(1)) == Some(matches@[0]));
    }
    let mut best: usize = 0;
    let mut i: usize = 1;
    while i < matches.len()
        invariant
            1 <= i <= matches@.len(),
            0 <= best < i,
            forall|j: int| 0 <= j < best ==> strictly_before(matches@[best as int], #[trigger] matches@[j]),
            forall|j: int| best < j < i ==> !strictly_before(#[trigger] matches@[j], matches@[best as int]),
            earliest_of(matches@.take(i as int)) == Some(matches@[best as int]),
        decreases matches@.len() - i,
    {
        proof {
            assert(matches@.take(i + 1).drop_last() =~= matches@.take(i as int));
        }
        let a = matches[i];
        let b = matches[best];
        let ea: u16 = a.insertions as u16 + a.deletions as u16 + a.substitutions as u16 + a.swaps as u16;
        let eb: u16 = b.insertions as u16 + b.deletions as u16 + b.substitutions as u16 + b.swaps as u16;
        let before = a.start < b.start || (a.start == b.start && (ea < eb || (ea == eb && a.end < b.end)));
        if before {
            proof {
                assert forall|j: int| 0 <= j < i implies strictly_before(matches@[i as int], #[trigger] matches@[j]) by {
                    if j < best {
                        assert(strictly_before(matches@[best as int], matches@[j]));
                    } else if j > best {
                        assert(!strictly_before(matches@[j], matches@[best as int]));
                    }
                }
            }
            best = i;
        }
        i = i + 1;
    }
    proof {
        assert(matches@.take(matches@.len() as int) =~= matches@);
        lemma_earliest_leftmost_fewest(matches@);
        lemma_earliest_member(matches@);
    }
    Some(matches[best])
}

impl DamLevNfa {
    /// The earliest match (by start, then fewest edits, then end) among those
    /// `find_all` reports.
    pub fn find_first(&self, text: &str, ranks: &SimilarityRanks) -> (r: Option<EditMatch>)
        ensures
            self.spec_pattern_chars().len() == 0 ==> r == Some(
                EditMatch { start: 0, end: 0, insertions: 0, deletions: 0, substitutions: 0, swaps: 0 },
            ),
            0 < self.spec_pattern_chars().len() ==> (r matches Some(m) ==> self.found(text@, *ranks, m)),
            r == earliest_of(self.beam_search(text@, *ranks, None, false)),
            r matches Some(m) ==> self.beam_search(text@, *ranks, None, false).contains(m) && forall|i: int|
                0 <= i < self.beam_search(text@, *ranks, None, false).len() ==> m.start <= (#[trigger] self.beam_search(
                    text@,
                    *ranks,
                    None,
                    false,
                )[i]).start && (self.beam_search(text@, *ranks, None, false)[i].start == m.start ==> edits_of(m)
                    <= edits_of(self.beam_search(text@, *ranks, None, false)[i])),
    {
        let mut buffers = SearchBuffers::new();
        self.find_first_buffered(text, ranks, &mut buffers)
    }

    /// `find_first` using the caller's scratch buffers.
    pub fn find_first_buffered(&self, text: &str, ranks: &SimilarityRanks, buffers: &mut SearchBuffers) -> (r: Option<
        EditMatch,
    >)
        ensures
            self.spec_pattern_chars().len() == 0 ==> r == Some(
                EditMatch { start: 0, end: 0, insertions: 0, deletions: 0, substitutions: 0, swaps: 0 },
            ),
            0 < self.spec_pattern_chars().len() ==> (r matches Some(m) ==> self.found(text@, *ranks, m)),
            r == earliest_of(self.beam_search(text@, *ranks, None, false)),
            r matches Some(m) ==> self.beam_search(text@, *ranks, None, false).contains(m) && forall|i: int|
                0 <= i < self.beam_search(text@, *ranks, None, false).len() ==> m.start <= (#[trigger] self.beam_search(
                    text@,
                    *ranks,
                    None,
                    false,
                )[i]).start && (self.beam_search(text@, *ranks, None, false)[i].start == m.start ==> edits_of(m)
                    <= edits_of(self.beam_search(text@, *ranks, None, false)[i])),
    {
        let all = self.find_all_buffered(text, ranks, buffers);
        earliest_match(&all)
    }
}

/// `ms` in order of start, keeping the relative order of equal starts.
fn sort_by_start(ms: &Vec<EditMatch>) -> (r: Vec<EditMatch>)
    ensures
        r@.len() == ms@.len(),
        forall|a: int, b: int| 0 <= a < b < r@.len() ==> (#[trigger] r@[a]).start <= (#[trigger] r@[b]).start,
        forall|a: int| 0 <= a < r@.len() ==> ms@.contains(#[trigger] r@[a]),
{
    let mut sorted: Vec<EditMatch> = Vec::new();
    let mut i: usize = 0;
    while i < ms.len()
        invariant
            0 <= i <= ms@.len(),
            sorted@.len() == i,
            forall|a: int, b: int| 0 <= a < b < sorted@.len() ==> (#[trigger] sorted@[a]).start <= (#[trigger] sorted@[b]).start,
            forall|a: int| 0 <= a < sorted@.len() ==> ms@.contains(#[trigger] sorted@[a]),
        decreases ms@.len() - i,
    {
        let x = ms[i];
        let mut p: usize = sorted.len();
        while p > 0 && sorted[p - 1].start > x.start
            invariant
                0 <= p <= sorted@.len(),
                forall|a: int| p <= a < sorted@.len() ==> (#[trigger] sorted@[a]).start > x.start,
            decreases p,
        {
            p = p - 1;
        }
        let ghost before = sorted@;
        sorted.insert(p, x);
        proof {
            assert(sorted@ == before.insert(p as int, x));
            assert forall|a: int, b: int| 0 <= a < b < sorted@.len() implies (#[trigger] sorted@[a]).start
                <= (#[trigger] sorted@[b]).start by {
                if b < p {
                } else if b == p {
                    if p > 0 {
                        assert(before[a].start <= before[p - 1].start || a == p - 1);
                    }
                } else if a < p {
                    assert(sorted@[b] == before[b - 1]);
                } else if a == p {
                    assert(sorted@[b] == before[b - 1]);
                } else {
                    assert(sorted@[a] == before[a - 1]);
                    assert(sorted@[b] == before[b - 1]);
                }
            }
            assert forall|a: int| 0 <= a < sorted@.len() implies ms@.contains(#[trigger] sorted@[a]) by {
                if a < p {
                    assert(sorted@[a] == before[a]);
                } else if a == p {
                    assert(ms@[i as int] == x);
                } else {
                    assert(sorted@[a] == before[a - 1]);
                }
            }
        }
        i = i + 1;
    }
    sorted
}

impl DamLevNfa {
    /// Up to `n` matches that do not overlap: the matches of `find_all` in
    /// order of start, each taken when it starts at or after the end of the
    /// last one taken.
    pub fn find_n(&self, text: &str, ranks: &SimilarityRanks, n: usize) -> (r: Vec<EditMatch>)
        ensures
            r@.len() <= n,
            forall|i: int| 0 < i < r@.len() ==> (#[trigger] r@[i]).start >= r@[i - 1].end,
            forall|a: int, b: int| 0 <= a < b < r@.len() ==> (#[trigger] r@[a]).start <= (#[trigger] r@[b]).start,
            forall|i: int| 0 <= i < r@.len() ==> self.beam_search(text@, *ranks, None, false).contains(#[trigger] r@[i]),
            0 < self.spec_pattern_chars().len() ==> forall|i: int|
                0 <= i < r@.len() ==> self.found(text@, *ranks, #[trigger] r@[i]),
            self.spec_pattern_chars().len() == 0 && n > 0 ==> r@ == seq![
                EditMatch { start: 0, end: 0, insertions: 0, deletions: 0, substitutions: 0, swaps: 0 },
            ],
    {
        let mut result: Vec<EditMatch> = Vec::new();
        if n == 0 {
            return result;
        }
        let all = self.find_all(text, ranks);
        let sorted = sort_by_start(&all);
        proof {
            if self.spec_pattern_chars().len() == 0 {
                assert(all@.contains(sorted@[0]));
                assert(sorted@ =~= seq![
                    EditMatch { start: 0, end: 0, insertions: 0, deletions: 0, substitutions: 0, swaps: 0 },
                ]);
            }
        }
        let mut last_end: usize = 0;
        let mut i: usize = 0;
        while i < sorted.len()
            invariant
                0 <= i <= sorted@.len(),
                n > 0,
                self.spec_pattern_chars().len() == 0 ==> sorted@ == seq![
                    EditMatch { start: 0, end: 0, insertions: 0, deletions: 0, substitutions: 0, swaps: 0 },
                ] && result@ == sorted@.take(i as int),
                result@.len() < n,
                forall|a: int| 0 <= a < sorted@.len() ==> all@.contains(#[trigger] sorted@[a]),
                all@ == self.beam_search(text@, *ranks, None, false),
                forall|a: int, b: int| 0 <= a < b < sorted@.len() ==> (#[trigger] sorted@[a]).start <= (#[trigger] sorted@[b]).start,
                forall|a: int| 0 <= a < result@.len() ==> all@.contains(#[trigger] result@[a]),
                forall|a: int, b: int| 0 <= a < b < result@.len() ==> (#[trigger] result@[a]).start <= (#[trigger] result@[b]).start,
                result@.len() > 0 ==> forall|j: int| i <= j < sorted@.len() ==> result@[result@.len() - 1].start <= (#[trigger] sorted@[j]).start,
                0 < self.spec_pattern_chars().len() ==> forall|a: int|
                    0 <= a < all@.len() ==> self.found(text@, *ranks, #[trigger] all@[a]),
                0 < self.spec_pattern_chars().len() ==> forall|a: int|
                    0 <= a < result@.len() ==> self.found(text@, *ranks, #[trigger] result@[a]),
                forall|a: int| 0 < a < result@.len() ==> (#[trigger] result@[a]).start >= result@[a - 1].end,
                result@.len() > 0 ==> last_end == result@[result@.len() - 1].end,
                result@.len() == 0 ==> last_end == 0,
            decreases sorted@.len() - i,
        {
            let m = sorted[i];
            if m.start >= last_end {
                proof {
                    assert(all@.contains(sorted@[i as int]));
                }
                last_end = m.end;
                let ghost pre = result@;
                result.push(m);
                proof {
                    assert forall|a: int, b: int| 0 <= a < b < result@.len() implies (#[trigger] result@[a]).start
                        <= (#[trigger] result@[b]).start by {
                        if b == result@.len() - 1 && a < b {
                            assert(result@[a] == pre[a]);
                            if a < pre.len() - 1 {
                                assert(pre[a].start <= pre[pre.len() - 1].start);
                            }
                        }
                    }
                    if self.spec_pattern_chars().len() == 0 {
                        assert(result@ =~= sorted@.take(i + 1));
                    }
                }
                if result.len() >= n {
                    return result;
                }
            }
            i = i + 1;
        }
        proof {
            if self.spec_pattern_chars().len() == 0 {
                assert(sorted@.take(1) =~= sorted@);
            }
        }
        result
    }
}

/// `x` clamped into `32..=256`.
pub open spec fn clamp_beam(x: int) -> int {
    if x < 32 {
        32
    } else if x > 256 {
        256
    } else {
        x
    }
}

} // verus!
