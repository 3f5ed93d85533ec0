//! One pass of the edit automaton for an approximate literal: the runs
//! under way at each text character, and the first one to complete.
use vstd::prelude::*;

verus! {

/// A run of the automaton: pattern position, edits, start character,
/// insertions, deletions, substitutions, and the last character it consumed.
pub type EditState = (usize, usize, usize, u8, u8, u8, usize);

/// A completed run, in character positions of the text.
#[derive(Clone, Copy, Debug, PartialEq, Eq)]
pub struct ScanHit {
    pub start: usize,
    pub end: usize,
    pub insertions: u8,
    pub deletions: u8,
    pub substitutions: u8,
    pub edits: usize,
}

/// Some run in `v` is at pattern position `pp` with `e` edits.
pub open spec fn has_key(v: Seq<EditState>, pp: usize, e: usize) -> bool {
    exists|j: int| 0 <= j < v.len() && (#[trigger] v[j]).0 == pp && v[j].1 == e
}

/// `v` with the run `st` appended, unless a run with its position and
/// edit count is already there.
pub open spec fn push_new(v: Seq<EditState>, st: EditState) -> Seq<EditState> {
    if has_key(v, st.0, st.1) {
        v
    } else {
        v.push(st)
    }
}

/// The runs that `st` leads to on reading `c` at position `pos`, appended to
/// `v`: a match, a substitution, an insertion, and a deletion, each within
/// the budget `max`.
pub open spec fn expand_one(v: Seq<EditState>, st: EditState, c: char, p: Seq<char>, max: int, pos: int) -> Seq<
    EditState,
> {
    let m = p.len();
    if st.0 >= m || st.1 > max {
        v
    } else {
        let pc = p[st.0 as int];
        let v1 = if c == pc {
            push_new(v, ((st.0 + 1) as usize, st.1, st.2, st.3, st.4, st.5, pos as usize))
        } else {
            v
        };
        let v2 = if st.1 < max && c != pc {
            push_new(v1, ((st.0 + 1) as usize, (st.1 + 1) as usize, st.2, st.3, st.4, (st.5 + 1) as u8, pos as usize))
        } else {
            v1
        };
        let v3 = if st.1 < max {
            push_new(v2, (st.0, (st.1 + 1) as usize, st.2, (st.3 + 1) as u8, st.4, st.5, st.6))
        } else {
            v2
        };
        if st.0 + 1 < m && st.1 < max {
            push_new(v3, ((st.0 + 1) as usize, (st.1 + 1) as usize, st.2, st.3, (st.4 + 1) as u8, st.5, st.6))
        } else {
            v3
        }
    }
}

/// The runs the first `n` runs of `a` lead to, in order.
pub open spec fn expand_upto(a: Seq<EditState>, n: int, c: char, p: Seq<char>, max: int, pos: int) -> Seq<EditState>
    decreases n,
{
    if n <= 0 {
        seq![]
    } else {
        expand_one(expand_upto(a, n - 1, c, p, max, pos), a[n - 1], c, p, max, pos)
    }
}

/// The run that starts at character `pos`.
pub open spec fn start_state(pos: int) -> EditState {
    (0usize, 0usize, pos as usize, 0u8, 0u8, 0u8, pos as usize)
}

/// The runs after reading character `pos` (which is `c`): those of `a` and
/// a new run started there, each stepped.
pub open spec fn step_states(a: Seq<EditState>, c: char, p: Seq<char>, max: int, pos: int) -> Seq<EditState> {
    let a2 = a.push(start_state(pos));
    expand_upto(a2, a2.len() as int, c, p, max, pos)
}

/// The run has completed the pattern with an edit count `accept` admits.
pub open spec fn accepted(st: EditState, m: int, max: int, accept: Seq<bool>) -> bool {
    st.0 >= m && st.1 <= max && accept[st.1 as int]
}

/// The first run of `v`, from index `j` on, that is accepted.
pub open spec fn first_accepted(v: Seq<EditState>, m: int, max: int, accept: Seq<bool>, j: int) -> Option<EditState>
    decreases v.len() - j,
{
    if j < 0 || j >= v.len() {
        None
    } else if accepted(v[j], m, max, accept) {
        Some(v[j])
    } else {
        first_accepted(v, m, max, accept, j + 1)
    }
}

/// At the end of the text: the first run of `v`, from index `j` on, that
/// is accepted, or is once the rest of the pattern is deleted.
pub open spec fn trailing_from(v: Seq<EditState>, m: int, max: int, accept: Seq<bool>, j: int) -> Option<EditState>
    decreases v.len() - j,
{
    if j < 0 || j >= v.len() {
        None
    } else {
        let st = v[j];
        let rem = m - st.0;
        if accepted(st, m, max, accept) {
            Some(st)
        } else if st.1 + rem <= max && accept[st.1 + rem] {
            Some((m as usize, (st.1 + rem) as usize, st.2, st.3, (st.4 + rem) as u8, st.5, st.6))
        } else {
            trailing_from(v, m, max, accept, j + 1)
        }
    }
}

pub open spec fn hit_of(st: EditState, end: int) -> ScanHit {
    ScanHit { start: st.2, end: end as usize, insertions: st.3, deletions: st.4, substitutions: st.5, edits: st.1 }
}

/// The search from character `pos` on, with the runs `a` under way: the
/// first accepted run after some character, ending after the last character
/// it consumed (`end_at_last`) or after the character just read; else what
/// completes at the end of the text.
pub open spec fn scan_from(
    p: Seq<char>,
    max: int,
    t: Seq<char>,
    accept: Seq<bool>,
    end_at_last: bool,
    a: Seq<EditState>,
    pos: int,
) -> Option<ScanHit>
    decreases t.len() - pos,
{
    if pos < 0 || pos >= t.len() {
        match trailing_from(a, p.len() as int, max, accept, 0) {
            Some(st) => Some(hit_of(st, t.len() as int)),
            None => None,
        }
    } else {
        let nx = step_states(a, t[pos], p, max, pos);
        match first_accepted(nx, p.len() as int, max, accept, 0) {
            Some(st) => Some(hit_of(st, if end_at_last { st.6 + 1 } else { pos + 1 })),
            None => scan_from(p, max, t, accept, end_at_last, nx, pos + 1),
        }
    }
}

/// The first approximate occurrence of `p` in `t` within `max` edits.
pub open spec fn scan_result(p: Seq<char>, max: int, t: Seq<char>, accept: Seq<bool>, end_at_last: bool) -> Option<
    ScanHit,
> {
    scan_from(p, max, t, accept, end_at_last, seq![], 0)
}

/// `p` occurs in `t` exactly at character `i`.
pub open spec fn exact_at(p: Seq<char>, t: Seq<char>, i: int) -> bool {
    0 <= i && i + p.len() <= t.len() && t.subrange(i, i + p.len()) == p
}

/// A run's counts fit the budget and add up, and it started no later than
/// it last consumed, before `bound`.
pub open spec fn state_ok(st: EditState, m: int, max: int, bound: int) -> bool {
    &&& st.0 <= m
    &&& st.1 <= max
    &&& st.3 + st.4 + st.5 == st.1
    &&& st.2 <= st.6 < bound
}

pub open spec fn all_ok(v: Seq<EditState>, m: int, max: int, bound: int) -> bool {
    forall|j: int| 0 <= j < v.len() ==> state_ok(#[trigger] v[j], m, max, bound)
}

/// Every run matching a prefix of `p` that ends just before `pos` exactly is
/// represented in `a` by a run with that position and no edits.
pub open spec fn exact_progress(p: Seq<char>, t: Seq<char>, a: Seq<EditState>, pos: int) -> bool {
    forall|k: int|
        1 <= k < p.len() && k <= pos && #[trigger] t.subrange(pos - k, pos) == p.subrange(0, k) ==> has_key(
            a,
            k as usize,
            0,
        )
}

proof fn lemma_push_new(v: Seq<EditState>, st: EditState, m: int, max: int, bound: int)
    ensures
        has_key(push_new(v, st), st.0, st.1),
        forall|a: usize, b: usize| has_key(v, a, b) ==> #[trigger] has_key(push_new(v, st), a, b),
        push_new(v, st).len() >= v.len(),
        push_new(v, st).len() > 0,
        all_ok(v, m, max, bound) && state_ok(st, m, max, bound) ==> all_ok(push_new(v, st), m, max, bound),
{
    if !has_key(v, st.0, st.1) {
        let w = v.push(st);
        assert(w[v.len() as int] == st);
        assert forall|a: usize, b: usize| has_key(v, a, b) implies #[trigger] has_key(w, a, b) by {
            let j = choose|j: int| 0 <= j < v.len() && (#[trigger] v[j]).0 == a && v[j].1 == b;
            assert(w[j] == v[j]);
        }
    }
}

proof fn lemma_expand_one(v: Seq<EditState>, st: EditState, c: char, p: Seq<char>, max: int, pos: int)
    requires
        1 <= p.len() <= usize::MAX,
        0 <= max <= 255,
        0 <= pos < usize::MAX,
    ensures
        forall|a: usize, b: usize| has_key(v, a, b) ==> #[trigger] has_key(expand_one(v, st, c, p, max, pos), a, b),
        expand_one(v, st, c, p, max, pos).len() >= v.len(),
        st.0 < p.len() && st.1 < max ==> expand_one(v, st, c, p, max, pos).len() > 0,
        st.0 < p.len() && st.1 == 0 && c == p[st.0 as int] ==> has_key(
            expand_one(v, st, c, p, max, pos),
            (st.0 + 1) as usize,
            0,
        ),
        all_ok(v, p.len() as int, max, pos + 1) && state_ok(st, p.len() as int, max, pos + 1) ==> all_ok(
            expand_one(v, st, c, p, max, pos),
            p.len() as int,
            max,
            pos + 1,
        ),
{
    let m = p.len() as int;
    if !(st.0 >= m || st.1 > max) {
        let pc = p[st.0 as int];
        let s1 = ((st.0 + 1) as usize, st.1, st.2, st.3, st.4, st.5, pos as usize);
        let s2 = ((st.0 + 1) as usize, (st.1 + 1) as usize, st.2, st.3, st.4, (st.5 + 1) as u8, pos as usize);
        let s3 = (st.0, (st.1 + 1) as usize, st.2, (st.3 + 1) as u8, st.4, st.5, st.6);
        let s4 = ((st.0 + 1) as usize, (st.1 + 1) as usize, st.2, st.3, (st.4 + 1) as u8, st.5, st.6);
        let v1 = if c == pc { push_new(v, s1) } else { v };
        let v2 = if st.1 < max && c != pc { push_new(v1, s2) } else { v1 };
        let v3 = if st.1 < max { push_new(v2, s3) } else { v2 };
        lemma_push_new(v, s1, m, max, pos + 1);
        lemma_push_new(v1, s2, m, max, pos + 1);
        lemma_push_new(v2, s3, m, max, pos + 1);
        lemma_push_new(v3, s4, m, max, pos + 1);
        if state_ok(st, m, max, pos + 1) {
            if st.1 < max {
                assert(state_ok(s2, m, max, pos + 1));
                assert(state_ok(s3, m, max, pos + 1));
                assert(st.0 + 1 < m ==> state_ok(s4, m, max, pos + 1));
            }
            assert(state_ok(s1, m, max, pos + 1));
        }
    }
}

proof fn lemma_expand_upto(a: Seq<EditState>, n: int, c: char, p: Seq<char>, max: int, pos: int)
    requires
        1 <= p.len() <= usize::MAX,
        0 <= max <= 255,
        0 <= pos < usize::MAX,
        0 <= n <= a.len(),
    ensures
        all_ok(a, p.len() as int, max, pos + 1) ==> all_ok(expand_upto(a, n, c, p, max, pos), p.len() as int, max, pos + 1),
        forall|j: int|
            0 <= j < n && (#[trigger] a[j]).0 < p.len() && a[j].1 == 0 && c == p[a[j].0 as int] ==> has_key(
                expand_upto(a, n, c, p, max, pos),
                (a[j].0 + 1) as usize,
                0,
            ),
        forall|j: int| 0 <= j < n && (#[trigger] a[j]).0 < p.len() && a[j].1 < max ==> expand_upto(a, n, c, p, max, pos).len() > 0,
    decreases n,
{
    if n > 0 {
        let prev = expand_upto(a, n - 1, c, p, max, pos);
        lemma_expand_upto(a, n - 1, c, p, max, pos);
        lemma_expand_one(prev, a[n - 1], c, p, max, pos);
        assert forall|j: int|
            0 <= j < n && (#[trigger] a[j]).0 < p.len() && a[j].1 == 0 && c == p[a[j].0 as int] implies has_key(
            expand_upto(a, n, c, p, max, pos),
            (a[j].0 + 1) as usize,
            0,
        ) by {
            if j < n - 1 {
                assert(has_key(prev, (a[j].0 + 1) as usize, 0));
            }
        }
    }
}

/// With no edits allowed, a character other than the pattern's first
/// starts nothing.
proof fn lemma_skip(p: Seq<char>, t: Seq<char>, accept: Seq<bool>, end_at_last: bool, q: int)
    requires
        p.len() >= 1,
        0 <= q < t.len(),
        t[q] != p[0],
    ensures
        scan_from(p, 0, t, accept, end_at_last, seq![], q) == scan_from(p, 0, t, accept, end_at_last, seq![], q + 1),
{
    let a2 = Seq::<EditState>::empty().push(start_state(q));
    assert(expand_upto(a2, 0, t[q], p, 0, q) == Seq::<EditState>::empty());
    assert(step_states(seq![], t[q], p, 0, q) =~= Seq::<EditState>::empty());
}

fn has_key_exec(v: &Vec<EditState>, pp: usize, e: usize) -> (r: bool)
    ensures
        r == has_key(v@, pp, e),
{
    let mut j: usize = 0;
    while j < v.len()
        invariant
            j <= v@.len(),
            forall|q: int| 0 <= q < j ==> !((#[trigger] v@[q]).0 == pp && v@[q].1 == e),
        decreases v@.len() - j,
    {
        if v[j].0 == pp && v[j].1 == e {
            return true;
        }
        j = j + 1;
    }
    false
}

fn push_new_exec(v: &mut Vec<EditState>, st: EditState)
    ensures
        final(v)@ == push_new(old(v)@, st),
{
    if !has_key_exec(v, st.0, st.1) {
        v.push(st);
    }
}

fn expand_state(p: &Vec<char>, max: usize, c: char, pos: usize, st: EditState, next: &mut Vec<EditState>)
    requires
        p@.len() >= 1,
        max <= 255,
        pos < usize::MAX,
        state_ok(st, p@.len() as int, max as int, pos + 1),
    ensures
        final(next)@ == expand_one(old(next)@, st, c, p@, max as int, pos as int),
{
    let m = p.len();
    let (pat_pos, edits, start, ins, del, sub, last) = st;
    if pat_pos >= m || edits > max {
        return ;
    }
    let pc = p[pat_pos];
    if c == pc {
        push_new_exec(next, (pat_pos + 1, edits, start, ins, del, sub, pos));
    }
    if edits < max && c != pc {
        push_new_exec(next, (pat_pos + 1, edits + 1, start, ins, del, sub + 1, pos));
    }
    if edits < max {
        push_new_exec(next, (pat_pos, edits + 1, start, ins + 1, del, sub, last));
    }
    if pat_pos + 1 < m && edits < max {
        push_new_exec(next, (pat_pos + 1, edits + 1, start, ins, del + 1, sub, last));
    }
}

/// [`step_states`], computed.
fn step_exec(p: &Vec<char>, max: usize, c: char, pos: usize, active: Vec<EditState>) -> (next: Vec<EditState>)
    requires
        p@.len() >= 1,
        max <= 255,
        pos < usize::MAX,
        all_ok(active@, p@.len() as int, max as int, pos as int),
    ensures
        next@ == step_states(active@, c, p@, max as int, pos as int),
        all_ok(next@, p@.len() as int, max as int, pos + 1),
{
    let mlen = p.len();
    let ghost m = p@.len() as int;
    let mut a2 = active;
    a2.push((0, 0, pos, 0, 0, 0, pos));
    let mut next: Vec<EditState> = Vec::new();
    let mut k: usize = 0;
    while k < a2.len()
        invariant
            p@.len() >= 1,
            max <= 255,
            pos < usize::MAX,
            m == p@.len(),
            a2@ == active@.push(start_state(pos as int)),
            all_ok(active@, m, max as int, pos as int),
            k <= a2@.len(),
            next@ == expand_upto(a2@, k as int, c, p@, max as int, pos as int),
        decreases a2@.len() - k,
    {
        assert(state_ok(a2@[k as int], m, max as int, pos + 1)) by {
            if k < active@.len() {
                assert(a2@[k as int] == active@[k as int]);
            }
        }
        expand_state(p, max, c, pos, a2[k], &mut next);
        k = k + 1;
    }
    proof {
        assert(all_ok(a2@, m, max as int, pos + 1)) by {
            assert forall|j: int| 0 <= j < a2@.len() implies state_ok(#[trigger] a2@[j], m, max as int, pos + 1) by {
                if j < active@.len() {
                    assert(a2@[j] == active@[j]);
                }
            }
        }
        lemma_expand_upto(a2@, a2@.len() as int, c, p@, max as int, pos as int);
    }
    next
}

fn first_accepted_exec(v: &Vec<EditState>, m: usize, max: usize, accept: &[bool]) -> (r: Option<usize>)
    requires
        accept@.len() > max,
    ensures
        match r {
            Some(j) => j < v@.len() && first_accepted(v@, m as int, max as int, accept@, 0) == Some(v@[j as int])
                && accepted(v@[j as int], m as int, max as int, accept@),
            None => first_accepted(v@, m as int, max as int, accept@, 0) is None,
        },
{
    let mut j: usize = 0;
    while j < v.len()
        invariant
            accept@.len() > max,
            j <= v@.len(),
            first_accepted(v@, m as int, max as int, accept@, 0) == first_accepted(v@, m as int, max as int, accept@, j as int),
        decreases v@.len() - j,
    {
        let st = v[j];
        if st.0 >= m && st.1 <= max {
            if accept[st.1] {
                return Some(j);
            }
        }
        j = j + 1;
    }
    None
}

fn trailing_exec(v: &Vec<EditState>, m: usize, max: usize, accept: &[bool], Ghost(bound): Ghost<int>) -> (r: Option<
    EditState,
>)
    requires
        accept@.len() > max,
        max <= 255,
        all_ok(v@, m as int, max as int, bound),
    ensures
        r == trailing_from(v@, m as int, max as int, accept@, 0),
        r matches Some(st) ==> state_ok(st, m as int, max as int, bound) && st.0 == m && accept@[st.1 as int],
{
    let mut j: usize = 0;
    while j < v.len()
        invariant
            accept@.len() > max,
            max <= 255,
            all_ok(v@, m as int, max as int, bound),
            j <= v@.len(),
            trailing_from(v@, m as int, max as int, accept@, 0) == trailing_from(v@, m as int, max as int, accept@, j as int),
        decreases v@.len() - j,
    {
        let st = v[j];
        assert(state_ok(v@[j as int], m as int, max as int, bound));
        let (pat_pos, edits, start, ins, del, sub, last) = st;
        let rem = m - pat_pos;
        if pat_pos >= m && edits <= max && accept[edits] {
            return Some(st);
        }
        if rem <= max - edits {
            if accept[edits + rem] {
                return Some((m, edits + rem, start, ins, del + rem as u8, sub, last));
            }
        }
        j = j + 1;
    }
    None
}

/// The first approximate occurrence of `p` (at least one character) in `t`
/// within `max` edits, where `accept[e]` says whether a run with `e` edits
/// is good enough.  At each character a new run starts beside those under
/// way; every run steps by a match, substitution, insertion or deletion,
/// keeping one run per pattern position and edit count; the first run to
/// complete with an admitted edit count is reported.  When no run is left,
/// the search skips to the next occurrence of the pattern's first
/// character.  At the end of the text a run may complete by deleting the
/// rest of the pattern.
pub fn edit_scan(p: &Vec<char>, max: usize, t: &Vec<char>, accept: &[bool], end_at_last: bool) -> (r: Option<ScanHit>)
    requires
        p@.len() >= 1,
        max <= 255,
        accept@.len() > max,
    ensures
        r == scan_result(p@, max as int, t@, accept@, end_at_last),
        r matches Some(h) ==> {
            &&& h.start < h.end <= t@.len()
            &&& h.edits <= max
            &&& accept@[h.edits as int]
            &&& h.insertions + h.deletions + h.substitutions == h.edits
        },
        accept@[0] && (exists|i: int| exact_at(p@, t@, i)) ==> r is Some,
        forall|i: int| accept@[0] && exact_at(p@, t@, i) ==> (r matches Some(h) && h.end <= i + p@.len()),
{
    let ghost target = scan_result(p@, max as int, t@, accept@, end_at_last);
    let ghost m = p@.len() as int;
    let n = t.len();
    let mm = p.len();
    let mut active: Vec<EditState> = Vec::new();
    let mut pos: usize = 0;
    while pos < n
        invariant
            p@.len() >= 1,
            m == p@.len(),
            mm == p@.len(),
            max <= 255,
            accept@.len() > max,
            n == t@.len(),
            pos <= n,
            all_ok(active@, m, max as int, pos as int),
            target == scan_result(p@, max as int, t@, accept@, end_at_last),
            target == scan_from(p@, max as int, t@, accept@, end_at_last, active@, pos as int),
            exact_progress(p@, t@, active@, pos as int),
            forall|i: int| accept@[0] && exact_at(p@, t@, i) ==> pos + 1 <= i + m,
        decreases n - pos,
    {
        let c = t[pos];
        let ghost entry = pos;
        let ghost a0 = active@;
        let next = step_exec(p, max, c, pos, active);
        proof {
            lemma_step_progress(p@, t@, a0, pos as int, max as int);
        }
        match first_accepted_exec(&next, mm, max, accept) {
            Some(j) => {
                let st = next[j];
                assert(state_ok(next@[j as int], m, max as int, pos + 1));
                let end = if end_at_last {
                    st.6 + 1
                } else {
                    pos + 1
                };
                proof {
                    let nx = step_states(a0, t@[pos as int], p@, max as int, pos as int);
                    assert(nx == next@);
                    assert(first_accepted(nx, m, max as int, accept@, 0) == Some(st));
                    assert(target == Some(hit_of(st, if end_at_last { st.6 + 1 } else { pos + 1 })));
                    assert(accepted(st, m, max as int, accept@));
                }
                let h = ScanHit { start: st.2, end, insertions: st.3, deletions: st.4, substitutions: st.5, edits: st.1 };
                assert(h == hit_of(st, if end_at_last { st.6 + 1 } else { pos + 1 }));
                assert(Some(h) == target);
                return Some(h);
            },
            None => {},
        }
        proof {
            lemma_no_accept_no_full(p@, t@, next@, pos as int, max as int, accept@);
            assert forall|i: int| accept@[0] && exact_at(p@, t@, i) implies pos + 2 <= i + m by {
                if i + m == pos + 1 {
                    assert(p@.subrange(0, m) =~= p@);
                    assert(t@.subrange(pos + 1 - m, pos + 1) == p@.subrange(0, m));
                    assert(has_key(next@, m as usize, 0));
                }
            }
        }
        if next.len() == 0 {
            proof {
                lemma_empty_step(a0, c, p@, max as int, pos as int);
            }
            pos = pos + 1;
            active = next;
            while pos < n && t[pos] != p[0]
                invariant
                    p@.len() >= 1,
                    m == p@.len(),
                    max == 0,
                    n == t@.len(),
                    entry < pos <= n,
                    active@ == Seq::<EditState>::empty(),
                    target == scan_from(p@, max as int, t@, accept@, end_at_last, active@, pos as int),
                    exact_progress(p@, t@, active@, pos as int),
                    forall|i: int| accept@[0] && exact_at(p@, t@, i) ==> pos + 1 <= i + m,
                decreases n - pos,
            {
                proof {
                    lemma_skip(p@, t@, accept@, end_at_last, pos as int);
                    lemma_skip_progress(p@, t@, pos as int);
                }
                pos = pos + 1;
            }
        } else {
            active = next;
            pos = pos + 1;
        }
    }
    match trailing_exec(&active, mm, max, accept, Ghost(pos as int)) {
        Some(st) => Some(
            ScanHit { start: st.2, end: n, insertions: st.3, deletions: st.4, substitutions: st.5, edits: st.1 },
        ),
        None => None,
    }
}

/// Exact progress carries over one step.
proof fn lemma_step_progress(p: Seq<char>, t: Seq<char>, a: Seq<EditState>, pos: int, max: int)
    requires
        1 <= p.len() <= usize::MAX,
        0 <= max <= 255,
        0 <= pos < t.len(),
        pos < usize::MAX,
        exact_progress(p, t, a, pos),
    ensures
        exact_progress(p, t, step_states(a, t[pos], p, max, pos), pos + 1),
        forall|k: int|
            1 <= k <= p.len() && k <= pos + 1 && #[trigger] t.subrange(pos + 1 - k, pos + 1) == p.subrange(0, k)
                ==> has_key(step_states(a, t[pos], p, max, pos), k as usize, 0),
{
    let a2 = a.push(start_state(pos));
    let nx = step_states(a, t[pos], p, max, pos);
    lemma_expand_upto(a2, a2.len() as int, t[pos], p, max, pos);
    assert forall|k: int|
        1 <= k <= p.len() && k <= pos + 1 && #[trigger] t.subrange(pos + 1 - k, pos + 1) == p.subrange(0, k) implies has_key(
        nx,
        k as usize,
        0,
    ) by {
        assert(t.subrange(pos + 1 - k, pos + 1)[k - 1] == p.subrange(0, k)[k - 1]);
        assert(t[pos] == p[k - 1]);
        if k == 1 {
            let j = a.len() as int;
            assert(a2[j] == start_state(pos));
        } else {
            assert(t.subrange(pos - (k - 1), pos) =~= t.subrange(pos + 1 - k, pos + 1).subrange(0, k - 1));
            assert(p.subrange(0, k - 1) =~= p.subrange(0, k).subrange(0, k - 1));
            assert(has_key(a, (k - 1) as usize, 0));
            let j = choose|j: int| 0 <= j < a.len() && (#[trigger] a[j]).0 == (k - 1) as usize && a[j].1 == 0;
            assert(a2[j] == a[j]);
        }
    }
}

/// When no run is accepted after character `pos`, no exact occurrence ends there.
proof fn lemma_no_accept_no_full(p: Seq<char>, t: Seq<char>, nx: Seq<EditState>, pos: int, max: int, accept: Seq<bool>)
    requires
        1 <= p.len() <= usize::MAX,
        0 <= max,
        accept.len() > max,
        first_accepted(nx, p.len() as int, max, accept, 0) is None,
    ensures
        accept[0] && p.len() <= pos + 1 && t.subrange(pos + 1 - p.len(), pos + 1) == p.subrange(0, p.len() as int) ==> !has_key(
            nx,
            p.len() as usize,
            0,
        ),
{
    if has_key(nx, p.len() as usize, 0) && accept[0] {
        let j = choose|j: int| 0 <= j < nx.len() && (#[trigger] nx[j]).0 == p.len() as usize && nx[j].1 == 0;
        lemma_first_accepted_none(nx, p.len() as int, max, accept, 0, j);
    }
}

proof fn lemma_first_accepted_none(v: Seq<EditState>, m: int, max: int, accept: Seq<bool>, i: int, j: int)
    requires
        0 <= i <= j < v.len(),
        first_accepted(v, m, max, accept, i) is None,
    ensures
        !accepted(v[j], m, max, accept),
    decreases j - i,
{
    if i < j {
        lemma_first_accepted_none(v, m, max, accept, i + 1, j);
    }
}

/// A step that leaves no run happens only without an edit budget.
proof fn lemma_empty_step(a: Seq<EditState>, c: char, p: Seq<char>, max: int, pos: int)
    requires
        1 <= p.len() <= usize::MAX,
        0 <= max <= 255,
        0 <= pos < usize::MAX,
        step_states(a, c, p, max, pos).len() == 0,
    ensures
        max == 0,
{
    let a2 = a.push(start_state(pos));
    lemma_expand_upto(a2, a2.len() as int, c, p, max, pos);
    let j = a.len() as int;
    assert(a2[j] == start_state(pos));
}

/// Skipping a character other than the pattern's first keeps exact progress
/// when no run is under way.
proof fn lemma_skip_progress(p: Seq<char>, t: Seq<char>, pos: int)
    requires
        p.len() >= 1,
        0 <= pos < t.len(),
        t[pos] != p[0],
        exact_progress(p, t, seq![], pos),
    ensures
        exact_progress(p, t, seq![], pos + 1),
        forall|i: int| exact_at(p, t, i) ==> i + p.len() != pos + 1,
{
    assert forall|k: int|
        1 <= k < p.len() && k <= pos + 1 && #[trigger] t.subrange(pos + 1 - k, pos + 1) == p.subrange(0, k) implies has_key(
        seq![],
        k as usize,
        0,
    ) by {
        lemma_prefix_back(p, t, pos, k);
    }
    assert forall|i: int| exact_at(p, t, i) implies i + p.len() != pos + 1 by {
        if i + p.len() == pos + 1 {
            let k = p.len() as int;
            assert(t.subrange(pos + 1 - k, pos + 1) =~= p.subrange(0, k));
            lemma_prefix_back(p, t, pos, k);
        }
    }
}

/// A prefix of `p` of length `k` ending after character `pos`, where that
/// character is not the pattern's first, extends one of length `k - 1`
/// ending before it.
proof fn lemma_prefix_back(p: Seq<char>, t: Seq<char>, pos: int, k: int)
    requires
        p.len() >= 1,
        0 <= pos < t.len(),
        t[pos] != p[0],
        exact_progress(p, t, seq![], pos),
        1 <= k <= p.len(),
        k <= pos + 1,
    ensures
        t.subrange(pos + 1 - k, pos + 1) != p.subrange(0, k),
{
    if t.subrange(pos + 1 - k, pos + 1) == p.subrange(0, k) {
    assert(t.subrange(pos + 1 - k, pos + 1)[k - 1] == p.subrange(0, k)[k - 1]);
    if k == 1 {
        assert(t[pos] == p[0]);
    } else {
        assert(t.subrange(pos - (k - 1), pos) =~= t.subrange(pos + 1 - k, pos + 1).subrange(0, k - 1));
        assert(p.subrange(0, k - 1) =~= p.subrange(0, k).subrange(0, k - 1));
        assert(has_key(seq![], (k - 1) as usize, 0));
    }
    }
}

} // verus!
