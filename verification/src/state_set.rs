//! Sets of extended NFA states, kept as strictly sorted vectors so that
//! two equal sets have equal representations.
use vstd::prelude::*;

verus! {

/// An NFA state, together with the position reached inside a literal
/// when the state is a literal state.
///
/// `literal_pos` is 0 when the state carries no literal position, and
/// `k + 1` when `k` characters of the literal have been consumed.
#[derive(Clone, Copy, PartialEq, Eq, Debug)]
pub struct ExtState {
    pub state_id: usize,
    pub literal_pos: usize,
}

impl ExtState {
    pub fn new(state_id: usize) -> (r: Self)
        ensures
            r.state_id == state_id,
            r.literal_pos == 0,
    {
        ExtState { state_id, literal_pos: 0 }
    }

    /// A literal state that has consumed `offset` characters.
    pub fn with_offset(state_id: usize, offset: usize) -> (r: Self)
        requires
            offset < usize::MAX,
        ensures
            r.state_id == state_id,
            r.literal_pos == offset + 1,
    {
        ExtState { state_id, literal_pos: offset + 1 }
    }
}

/// The lexicographic order on (state, literal position).
pub open spec fn ext_lt(a: ExtState, b: ExtState) -> bool {
    a.state_id < b.state_id || (a.state_id == b.state_id && a.literal_pos < b.literal_pos)
}

pub fn ext_less(a: ExtState, b: ExtState) -> (r: bool)
    ensures
        r == ext_lt(a, b),
{
    a.state_id < b.state_id || (a.state_id == b.state_id && a.literal_pos < b.literal_pos)
}

pub fn ext_eq(a: ExtState, b: ExtState) -> (r: bool)
    ensures
        r == (a == b),
{
    a.state_id == b.state_id && a.literal_pos == b.literal_pos
}

/// Strictly increasing, hence free of duplicates.
pub open spec fn sorted_set(s: Seq<ExtState>) -> bool {
    forall|i: int, j: int| 0 <= i < j < s.len() ==> ext_lt(#[trigger] s[i], #[trigger] s[j])
}

/// Two strictly sorted sequences holding the same elements are identical.
pub proof fn lemma_sorted_set_unique(a: Seq<ExtState>, b: Seq<ExtState>)
    requires
        sorted_set(a),
        sorted_set(b),
        a.to_set() == b.to_set(),
    ensures
        a == b,
    decreases a.len() + b.len(),
{
    if a.len() == 0 {
        if b.len() > 0 {
            assert(b.to_set().contains(b[0]));
        }
        assert(a =~= b);
    } else if b.len() == 0 {
        assert(a.to_set().contains(a[0]));
    } else {
        assert(a.to_set().contains(a[0]));
        assert(b.to_set().contains(a[0]));
        assert(b.to_set().contains(b[0]));
        assert(a.to_set().contains(b[0]));
        let ia = choose|i: int| 0 <= i < a.len() && a[i] == b[0];
        let ib = choose|i: int| 0 <= i < b.len() && b[i] == a[0];
        if ia > 0 {
            assert(ext_lt(a[0], a[ia]));
        }
        if ib > 0 {
            assert(ext_lt(b[0], b[ib]));
        }
        assert(a[0] == b[0]);
        let a1 = a.drop_first();
        let b1 = b.drop_first();
        assert forall|x: ExtState| a1.to_set().contains(x) implies b1.to_set().contains(x) by {
            let i = choose|i: int| 0 <= i < a1.len() && a1[i] == x;
            assert(a.to_set().contains(x));
            assert(ext_lt(a[0], a[i + 1]));
            let j = choose|j: int| 0 <= j < b.len() && b[j] == x;
            assert(j != 0);
            assert(b1[j - 1] == x);
        }
        assert forall|x: ExtState| b1.to_set().contains(x) implies a1.to_set().contains(x) by {
            let i = choose|i: int| 0 <= i < b1.len() && b1[i] == x;
            assert(b.to_set().contains(x));
            assert(ext_lt(b[0], b[i + 1]));
            let j = choose|j: int| 0 <= j < a.len() && a[j] == x;
            assert(j != 0);
            assert(a1[j - 1] == x);
        }
        assert(a1.to_set() =~= b1.to_set());
        lemma_sorted_set_unique(a1, b1);
        assert(a =~= b) by {
            assert forall|i: int| 0 <= i < a.len() implies a[i] == b[i] by {
                if i > 0 {
                    assert(a[i] == a1[i - 1]);
                    assert(b[i] == b1[i - 1]);
                }
            }
        }
    }
}

/// The first index whose element is not below `e` (the insertion point).
fn insertion_point(v: &Vec<ExtState>, e: ExtState) -> (r: usize)
    requires
        sorted_set(v@),
    ensures
        r <= v@.len(),
        forall|i: int| 0 <= i < r ==> ext_lt(#[trigger] v@[i], e),
        r < v@.len() ==> !ext_lt(v@[r as int], e),
{
    let mut i: usize = 0;
    while i < v.len() && ext_less(v[i], e)
        invariant
            0 <= i <= v@.len(),
            sorted_set(v@),
            forall|j: int| 0 <= j < i ==> ext_lt(#[trigger] v@[j], e),
        decreases v@.len() - i,
    {
        i = i + 1;
    }
    i
}

/// Membership test.
pub fn set_contains(v: &Vec<ExtState>, e: ExtState) -> (r: bool)
    requires
        sorted_set(v@),
    ensures
        r == v@.contains(e),
{
    let i = insertion_point(v, e);
    if i < v.len() && ext_eq(v[i], e) {
        true
    } else {
        proof {
            if v@.contains(e) {
                let j = choose|j: int| 0 <= j < v@.len() && v@[j] == e;
                if j < i {
                    assert(ext_lt(v@[j], e));
                } else if j > i {
                    assert(ext_lt(v@[i as int], v@[j]));
                }
            }
        }
        false
    }
}

/// Insert `e`, keeping the vector strictly sorted.
pub fn set_insert(v: &mut Vec<ExtState>, e: ExtState)
    requires
        sorted_set(old(v)@),
    ensures
        sorted_set(final(v)@),
        final(v)@.to_set() == old(v)@.to_set().insert(e),
{
    let i = insertion_point(v, e);
    if i < v.len() && ext_eq(v[i], e) {
        assert(v@.to_set() =~= v@.to_set().insert(e));
    } else {
        let ghost old_v = v@;
        v.insert(i, e);
        assert(v@ == old_v.insert(i as int, e));
        assert forall|a: int, b: int| 0 <= a < b < v@.len() implies ext_lt(#[trigger] v@[a], #[trigger] v@[b]) by {
            if b < i {
            } else if b == i {
                assert(v@[a] == old_v[a]);
            } else if a < i {
                assert(v@[b] == old_v[b - 1]);
                if i < old_v.len() {
                    assert(!ext_lt(old_v[i as int], e));
                    if b - 1 > i {
                        assert(ext_lt(old_v[i as int], old_v[b - 1]));
                    }
                }
            } else if a == i {
                assert(v@[b] == old_v[b - 1]);
                assert(!ext_lt(old_v[i as int], e));
                assert(old_v[i as int] != e);
                if b - 1 > i {
                    assert(ext_lt(old_v[i as int], old_v[b - 1]));
                }
            } else {
                assert(v@[a] == old_v[a - 1]);
                assert(v@[b] == old_v[b - 1]);
            }
        }
        assert forall|x: ExtState| v@.to_set().contains(x) <==> old_v.to_set().insert(e).contains(x) by {
            if v@.to_set().contains(x) {
                let j = choose|j: int| 0 <= j < v@.len() && v@[j] == x;
                if j < i {
                    assert(old_v[j] == x);
                } else if j > i {
                    assert(old_v[j - 1] == x);
                }
            }
            if old_v.to_set().contains(x) {
                let j = choose|j: int| 0 <= j < old_v.len() && old_v[j] == x;
                if j < i {
                    assert(v@[j] == x);
                } else {
                    assert(v@[j + 1] == x);
                }
            }
            if x == e {
                assert(v@[i as int] == e);
            }
        }
        assert(v@.to_set() =~= old_v.to_set().insert(e));
    }
}

/// Elementwise equality of two vectors.
pub fn set_equal(a: &Vec<ExtState>, b: &Vec<ExtState>) -> (r: bool)
    ensures
        r == (a@ == b@),
{
    if a.len() != b.len() {
        return false;
    }
    let mut i: usize = 0;
    while i < a.len()
        invariant
            a@.len() == b@.len(),
            0 <= i <= a@.len(),
            forall|j: int| 0 <= j < i ==> a@[j] == b@[j],
        decreases a@.len() - i,
    {
        if !ext_eq(a[i], b[i]) {
            return false;
        }
        i = i + 1;
    }
    assert(a@ =~= b@);
    true
}

/// A copy of the vector.
pub fn set_copy(a: &Vec<ExtState>) -> (r: Vec<ExtState>)
    ensures
        r@ == a@,
{
    let mut r: Vec<ExtState> = Vec::new();
    let mut i: usize = 0;
    while i < a.len()
        invariant
            0 <= i <= a@.len(),
            r@ == a@.subrange(0, i as int),
        decreases a@.len() - i,
    {
        r.push(a[i]);
        assert(r@ =~= a@.subrange(0, i + 1));
        i = i + 1;
    }
    assert(r@ =~= a@);
    r
}

} // verus!
