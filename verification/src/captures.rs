//! Capture-group bookkeeping during matching: one slot per group, names for
//! groups, and handler overrides that replace parts of the captured text.
use vstd::prelude::*;
use vstd::string::StringExecFns;
use vstd::utf8::{
    encode_utf8, is_char_boundary, valid_utf8, valid_utf8_split, encode_utf8_valid_utf8, is_char_boundary_start_end_of_seq,
    is_char_boundary_iff_not_is_continuation_byte,
};
use crate::text::lemma_encode_utf8_append;

verus! {

/// The group index registered under `k`, if any.
pub open spec fn name_lookup(names: Seq<(String, usize)>, k: Seq<char>) -> Option<usize> {
    if exists|i: int| 0 <= i < names.len() && (#[trigger] names[i]).0@ == k {
        Some(names[choose|i: int| 0 <= i < names.len() && (#[trigger] names[i]).0@ == k].1)
    } else {
        None
    }
}

/// No name is registered twice.
pub open spec fn names_unique(names: Seq<(String, usize)>) -> bool {
    forall|i: int, j: int| 0 <= i < j < names.len() ==> (#[trigger] names[i]).0@ != (#[trigger] names[j]).0@
}

proof fn lemma_lookup_at(names: Seq<(String, usize)>, i: int)
    requires
        names_unique(names),
        0 <= i < names.len(),
    ensures
        name_lookup(names, names[i].0@) == Some(names[i].1),
{
    let k = names[i].0@;
    let j = choose|j: int| 0 <= j < names.len() && (#[trigger] names[j]).0@ == k;
    if j != i {
        if j < i {
            assert(names[j].0@ != names[i].0@);
        } else {
            assert(names[i].0@ != names[j].0@);
        }
    }
}

/// Adds or replaces the entry for `name`.
fn names_insert(names: &mut Vec<(String, usize)>, name: String, index: usize)
    requires
        names_unique(old(names)@),
    ensures
        names_unique(final(names)@),
        forall|k: Seq<char>| #[trigger] name_lookup(final(names)@, k) == if k == name@ {
            Some(index)
        } else {
            name_lookup(old(names)@, k)
        },
        final(names)@.len() == old(names)@.len() + if name_lookup(old(names)@, name@) is None {
            1int
        } else {
            0int
        },
{
    let ghost old_names = names@;
    let ghost name_v = name@;
    let mut i: usize = 0;
    while i < names.len()
        invariant
            0 <= i <= names@.len(),
            name_v == name@,
            old_names == old(names)@,
            names@ == old_names,
            names_unique(old_names),
            forall|j: int| 0 <= j < i ==> (#[trigger] names@[j]).0@ != name@,
        decreases names@.len() - i,
    {
        if names[i].0 == name {
            names.set(i, (name, index));
            proof {
                assert(old_names[i as int].0@ == name_v);
                assert(names@ == old_names.update(i as int, names@[i as int]));
                assert(names@[i as int].0@ == name_v);
                assert forall|a: int, b: int| 0 <= a < b < names@.len() implies (#[trigger] names@[a]).0@ != (#[trigger] names@[b]).0@ by {
                    assert(old_names[a].0@ != old_names[b].0@);
                    if a == i as int {
                        assert(old_names[a].0@ == name_v);
                    }
                    if b == i as int {
                        assert(old_names[b].0@ == name_v);
                    }
                }
                assert forall|k: Seq<char>| #[trigger] name_lookup(names@, k) == if k == name_v {
                    Some(index)
                } else {
                    name_lookup(old_names, k)
                } by {
                    if k == name_v {
                        lemma_lookup_at(names@, i as int);
                    } else {
                        assert forall|j: int| 0 <= j < names@.len() implies ((#[trigger] names@[j]).0@ == k) == (old_names[j].0@ == k) by {
                            if j == i as int {
                                assert(old_names[j].0@ == name_v);
                            }
                        }
                        if exists|j: int| 0 <= j < names@.len() && (#[trigger] names@[j]).0@ == k {
                            let j = choose|j: int| 0 <= j < names@.len() && (#[trigger] names@[j]).0@ == k;
                            lemma_lookup_at(names@, j);
                            lemma_lookup_at(old_names, j);
                        } else {
                            assert forall|j: int| 0 <= j < old_names.len() implies (#[trigger] old_names[j]).0@ != k by {
                                if j == i as int {
                                    assert(old_names[j].0@ == name_v);
                                } else {
                                    assert(names@[j] == old_names[j]);
                                }
                            }
                        }
                    }
                }
            }
            return;
        }
        i = i + 1;
    }
    names.push((name, index));
    proof {
        let n = old_names.len() as int;
        assert(!exists|j: int| 0 <= j < old_names.len() && (#[trigger] old_names[j]).0@ == name_v);
        assert(names@ == old_names.push(names@[n]));
        assert(names@[n].0@ == name_v);
        assert forall|a: int, b: int| 0 <= a < b < names@.len() implies (#[trigger] names@[a]).0@ != (#[trigger] names@[b]).0@ by {
            if b < n {
                assert(old_names[a].0@ != old_names[b].0@);
            }
        }
        assert forall|k: Seq<char>| #[trigger] name_lookup(names@, k) == if k == name_v {
            Some(index)
        } else {
            name_lookup(old_names, k)
        } by {
            if k == name_v {
                lemma_lookup_at(names@, n);
            } else {
                if exists|j: int| 0 <= j < names@.len() && (#[trigger] names@[j]).0@ == k {
                    let j = choose|j: int| 0 <= j < names@.len() && (#[trigger] names@[j]).0@ == k;
                    assert(j < n);
                    lemma_lookup_at(names@, j);
                    lemma_lookup_at(old_names, j);
                } else {
                    assert forall|j: int| 0 <= j < old_names.len() implies (#[trigger] old_names[j]).0@ != k by {
                        assert(names@[j] == old_names[j]);
                    }
                }
            }
        }
    }
}

/// The entry registered under `name`, looked up by comparing names.
fn names_get(names: &Vec<(String, usize)>, name: &String) -> (r: Option<usize>)
    requires
        names_unique(names@),
    ensures
        r == name_lookup(names@, name@),
{
    let mut i: usize = 0;
    while i < names.len()
        invariant
            0 <= i <= names@.len(),
            names_unique(names@),
            forall|j: int| 0 <= j < i ==> (#[trigger] names@[j]).0@ != name@,
        decreases names@.len() - i,
    {
        if names[i].0 == *name {
            proof {
                lemma_lookup_at(names@, i as int);
            }
            return Some(names[i].1);
        }
        i = i + 1;
    }
    None
}

/// Capture-group state during matching.
pub struct CaptureState {
    /// `(start, end)` of each group; group 0 is the whole match.
    slots: Vec<Option<(usize, usize)>>,
    /// Group indices by name.
    names: Vec<(String, usize)>,
    /// Spans `(start, end)` of the text to be replaced by the given text.
    handler_overrides: Vec<(usize, usize, String)>,
}

impl CaptureState {
    /// The slots, as a sequence.
    pub closed spec fn spec_slots(&self) -> Seq<Option<(usize, usize)>> {
        self.slots@
    }

    /// The group registered under a name, if any.
    pub closed spec fn spec_name(&self, k: Seq<char>) -> Option<usize> {
        name_lookup(self.names@, k)
    }

    /// The registered names with their groups.
    pub closed spec fn spec_names(&self) -> Seq<(String, usize)> {
        self.names@
    }

    /// The handler overrides.
    pub closed spec fn spec_overrides(&self) -> Seq<(usize, usize, String)> {
        self.handler_overrides@
    }

    /// There is a slot for the whole match, and no name is registered twice.
    pub closed spec fn wf(&self) -> bool {
        self.slots@.len() >= 1 && names_unique(self.names@)
    }

    /// The capture of group `index`, if it is set.
    pub open spec fn spec_get(&self, index: int) -> Option<(usize, usize)> {
        if 0 <= index < self.spec_slots().len() {
            self.spec_slots()[index]
        } else {
            None
        }
    }

    /// A state for `group_count` groups plus the whole match, all unset.
    pub fn new(group_count: usize) -> (r: Self)
        requires
            group_count < usize::MAX,
        ensures
            r.wf(),
            r.spec_slots() == Seq::new((group_count + 1) as nat, |i: int| None::<(usize, usize)>),
            r.spec_names().len() == 0,
            r.spec_overrides().len() == 0,
    {
        let slots = empty_slots(group_count + 1);
        CaptureState { slots, names: Vec::new(), handler_overrides: Vec::new() }
    }

    /// Replaces the handler overrides.
    pub fn set_handler_overrides(&mut self, overrides: Vec<(usize, usize, String)>)
        ensures
            final(self).spec_overrides() == overrides@,
            final(self).spec_slots() == old(self).spec_slots(),
            final(self).spec_names() == old(self).spec_names(),
            final(self).wf() == old(self).wf(),
    {
        self.handler_overrides = overrides;
    }

    /// The handler overrides.
    pub fn handler_overrides(&self) -> (r: &[(usize, usize, String)])
        ensures
            r@ == self.spec_overrides(),
    {
        self.handler_overrides.as_slice()
    }

    /// Registers `name` for group `index` (replacing an earlier entry for it).
    pub fn register_name(&mut self, name: String, index: usize)
        requires
            old(self).wf(),
        ensures
            final(self).wf(),
            forall|k: Seq<char>| #[trigger] final(self).spec_name(k) == if k == name@ {
                Some(index)
            } else {
                old(self).spec_name(k)
            },
            final(self).spec_slots() == old(self).spec_slots(),
            final(self).spec_overrides() == old(self).spec_overrides(),
    {
        names_insert(&mut self.names, name, index);
    }

    /// Opens group `group` at `pos` (ignored for an unknown group).
    pub fn start_capture(&mut self, group: usize, pos: usize)
        ensures
            final(self).spec_slots() == if group < old(self).spec_slots().len() {
                old(self).spec_slots().update(group as int, Some((pos, pos)))
            } else {
                old(self).spec_slots()
            },
            final(self).spec_names() == old(self).spec_names(),
            final(self).spec_overrides() == old(self).spec_overrides(),
            final(self).wf() == old(self).wf(),
    {
        if group < self.slots.len() {
            self.slots.set(group, Some((pos, pos)));
        }
    }

    /// Closes group `group` at `pos`, when it was opened.
    pub fn end_capture(&mut self, group: usize, pos: usize)
        ensures
            final(self).spec_slots() == match old(self).spec_get(group as int) {
                Some((start, _)) => old(self).spec_slots().update(group as int, Some((start, pos))),
                None => old(self).spec_slots(),
            },
            final(self).spec_names() == old(self).spec_names(),
            final(self).spec_overrides() == old(self).spec_overrides(),
            final(self).wf() == old(self).wf(),
    {
        if group < self.slots.len() {
            if let Some((start, _)) = self.slots[group] {
                self.slots.set(group, Some((start, pos)));
            }
        }
    }

    /// The capture of group `index`, if it is set.
    pub fn get(&self, index: usize) -> (r: Option<(usize, usize)>)
        ensures
            r == self.spec_get(index as int),
    {
        if index < self.slots.len() {
            self.slots[index]
        } else {
            None
        }
    }

    /// The capture of the group registered under `name`.
    pub fn get_named(&self, name: &str) -> (r: Option<(usize, usize)>)
        requires
            self.wf(),
        ensures
            r == match self.spec_name(name@) {
                Some(idx) => self.spec_get(idx as int),
                None => None,
            },
    {
        let key = name.to_owned();
        match names_get(&self.names, &key) {
            Some(idx) => self.get(idx),
            None => None,
        }
    }

    /// Sets the whole match (group 0).
    pub fn set_full_match(&mut self, start: usize, end: usize)
        requires
            old(self).wf(),
        ensures
            final(self).wf(),
            final(self).spec_slots() == old(self).spec_slots().update(0, Some((start, end))),
            final(self).spec_names() == old(self).spec_names(),
            final(self).spec_overrides() == old(self).spec_overrides(),
    {
        self.slots.set(0, Some((start, end)));
    }

    /// The slots.
    pub fn slots(&self) -> (r: &[Option<(usize, usize)>])
        ensures
            r@ == self.spec_slots(),
    {
        self.slots.as_slice()
    }

    /// The registered names with their groups.
    pub fn names(&self) -> (r: &Vec<(String, usize)>)
        ensures
            r@ == self.spec_names(),
    {
        &self.names
    }

    /// Unsets every capture, keeping the number of slots.
    pub fn clear(&mut self)
        ensures
            final(self).spec_slots() == Seq::new(old(self).spec_slots().len(), |i: int| None::<(usize, usize)>),
            final(self).spec_names() == old(self).spec_names(),
            final(self).spec_overrides() == old(self).spec_overrides(),
            final(self).wf() == old(self).wf(),
    {
        let mut i: usize = 0;
        while i < self.slots.len()
            invariant
                0 <= i <= self.slots@.len(),
                self.slots@.len() == old(self).slots@.len(),
                self.names == old(self).names,
                self.handler_overrides == old(self).handler_overrides,
                forall|j: int| 0 <= j < i ==> self.slots@[j] is None,
            decreases self.slots@.len() - i,
        {
            self.slots.set(i, None);
            i = i + 1;
        }
        assert(self.slots@ =~= Seq::new(old(self).slots@.len(), |i: int| None::<(usize, usize)>));
    }

    /// A copy with every capture shifted by `offset`.
    pub fn with_offset(&self, offset: usize) -> (r: Self)
        requires
            forall|i: int|
                0 <= i < self.spec_slots().len() ==> (#[trigger] self.spec_slots()[i] matches Some((s, e)) ==> s + offset
                    <= usize::MAX && e + offset <= usize::MAX),
        ensures
            r.spec_slots().len() == self.spec_slots().len(),
            forall|i: int| 0 <= i < self.spec_slots().len() ==> #[trigger] r.spec_slots()[i] == match self.spec_slots()[i] {
                Some((s, e)) => Some(((s + offset) as usize, (e + offset) as usize)),
                None => None,
            },
            r.spec_names() == self.spec_names(),
            r.spec_overrides() == self.spec_overrides(),
            self.wf() ==> r.wf(),
    {
        let mut slots: Vec<Option<(usize, usize)>> = Vec::new();
        let mut i: usize = 0;
        while i < self.slots.len()
            invariant
                0 <= i <= self.slots@.len(),
                slots@.len() == i,
                forall|k: int|
                    0 <= k < self.slots@.len() ==> (#[trigger] self.slots@[k] matches Some((s, e)) ==> s + offset
                        <= usize::MAX && e + offset <= usize::MAX),
                forall|k: int| 0 <= k < i ==> #[trigger] slots@[k] == match self.slots@[k] {
                    Some((s, e)) => Some(((s + offset) as usize, (e + offset) as usize)),
                    None => None,
                },
            decreases self.slots@.len() - i,
        {
            let shifted = match self.slots[i] {
                Some((s, e)) => Some((s + offset, e + offset)),
                None => None,
            };
            slots.push(shifted);
            i = i + 1;
        }
        let names = copy_names(&self.names);
        let overrides = copy_overrides(&self.handler_overrides);
        CaptureState { slots, names, handler_overrides: overrides }
    }
}

fn copy_names(v: &Vec<(String, usize)>) -> (r: Vec<(String, usize)>)
    ensures
        r@ == v@,
{
    let mut r: Vec<(String, usize)> = Vec::new();
    let mut i: usize = 0;
    while i < v.len()
        invariant
            0 <= i <= v@.len(),
            r@ == v@.subrange(0, i as int),
        decreases v@.len() - i,
    {
        let name = v[i].0.clone();
        r.push((name, v[i].1));
        assert(r@ =~= v@.subrange(0, i + 1));
        i = i + 1;
    }
    assert(r@ =~= v@);
    r
}

fn copy_overrides(v: &Vec<(usize, usize, String)>) -> (r: Vec<(usize, usize, String)>)
    ensures
        r@ == v@,
{
    let mut r: Vec<(usize, usize, String)> = Vec::new();
    let mut i: usize = 0;
    while i < v.len()
        invariant
            0 <= i <= v@.len(),
            r@ == v@.subrange(0, i as int),
        decreases v@.len() - i,
    {
        let t = v[i].2.clone();
        r.push((v[i].0, v[i].1, t));
        assert(r@ =~= v@.subrange(0, i + 1));
        i = i + 1;
    }
    assert(r@ =~= v@);
    r
}

fn empty_slots(n: usize) -> (r: Vec<Option<(usize, usize)>>)
    ensures
        r@ == Seq::new(n as nat, |i: int| None::<(usize, usize)>),
{
    let mut slots: Vec<Option<(usize, usize)>> = Vec::new();
    let mut i: usize = 0;
    while i < n
        invariant
            0 <= i <= n,
            slots@ == Seq::new(i as nat, |j: int| None::<(usize, usize)>),
        decreases n - i,
    {
        slots.push(None);
        assert(slots@ =~= Seq::new((i + 1) as nat, |j: int| None::<(usize, usize)>));
        i = i + 1;
    }
    slots
}


/// `h[a..b]` is a slice at character boundaries.
pub open spec fn slice_ok(h: Seq<u8>, a: int, b: int) -> bool {
    0 <= a <= b <= h.len() && is_char_boundary(h, a) && is_char_boundary(h, b)
}

/// Every override that overlaps `start..end` starts at a character boundary,
/// and ends at one when it ends inside the span.
pub open spec fn overrides_ok(h: Seq<u8>, ovs: Seq<(usize, usize, String)>, start: int, end: int) -> bool {
    forall|i: int|
        0 <= i < ovs.len() ==> (#[trigger] ovs[i]).1 > start && ovs[i].0 < end ==> is_char_boundary(h, ovs[i].0 as int) && (
        ovs[i].1 < end ==> is_char_boundary(h, ovs[i].1 as int))
}

/// The bytes of the span `start..end` of `h` with the overrides from index `i`
/// on spliced in, after `acc` has been produced up to byte `pos`.
pub open spec fn splice_overrides(
    h: Seq<u8>,
    ovs: Seq<(usize, usize, String)>,
    i: int,
    start: int,
    end: int,
    acc: Seq<u8>,
    pos: int,
) -> Seq<u8>
    decreases ovs.len() - i,
{
    if i < 0 || i >= ovs.len() {
        if pos < end {
            acc + h.subrange(pos, end)
        } else {
            acc
        }
    } else {
        let a = ovs[i].0 as int;
        let b = ovs[i].1 as int;
        if b <= start || a >= end {
            splice_overrides(h, ovs, i + 1, start, end, acc, pos)
        } else {
            let acc1 = if a > pos {
                acc + h.subrange(pos, a)
            } else {
                acc
            };
            let lo = if a > start {
                a
            } else {
                start
            };
            let hi = if b < end {
                b
            } else {
                end
            };
            let acc2 = if lo < hi {
                acc1 + encode_utf8(ovs[i].2@)
            } else {
                acc1
            };
            splice_overrides(h, ovs, i + 1, start, end, acc2, b)
        }
    }
}

proof fn lemma_boundary_prefix(h: Seq<u8>, end: int, start: int)
    requires
        valid_utf8(h),
        is_char_boundary(h, end),
        is_char_boundary(h, start),
        0 <= start <= end <= h.len(),
    ensures
        is_char_boundary(h.subrange(0, end), start),
{
    valid_utf8_split(h, end);
    let head = h.subrange(0, end);
    if start == end {
        is_char_boundary_start_end_of_seq(head);
    } else {
        is_char_boundary_iff_not_is_continuation_byte(h, start);
        is_char_boundary_iff_not_is_continuation_byte(head, start);
    }
}

/// The text of `text[start..end]`.
fn slice_text(text: &str, start: usize, end: usize) -> (r: String)
    requires
        slice_ok(encode_utf8(text@), start as int, end as int),
    ensures
        encode_utf8(r@) == encode_utf8(text@).subrange(start as int, end as int),
{
    proof {
        encode_utf8_valid_utf8(text@);
        lemma_boundary_prefix(encode_utf8(text@), end as int, start as int);
    }
    let (head, _rest) = text.split_at(end);
    let (_skip, mid) = head.split_at(start);
    proof {
        assert(encode_utf8(mid@) =~= encode_utf8(text@).subrange(start as int, end as int));
    }
    mid.to_owned()
}

impl CaptureState {
    /// `text[start..end]` with the handler overrides spliced in.
    fn apply_overrides(&self, text: &str, start: usize, end: usize) -> (r: String)
        requires
            slice_ok(encode_utf8(text@), start as int, end as int),
            overrides_ok(encode_utf8(text@), self.spec_overrides(), start as int, end as int),
        ensures
            encode_utf8(r@) == splice_overrides(encode_utf8(text@), self.spec_overrides(), 0, start as int, end as int, Seq::empty(), start as int),
    {
        let ghost h = encode_utf8(text@);
        let ghost ovs = self.spec_overrides();
        let mut result = String::new();
        let mut pos: usize = start;
        let mut i: usize = 0;
        proof {
            assert(encode_utf8(result@) =~= Seq::<u8>::empty());
        }
        while i < self.handler_overrides.len()
            invariant
                h == encode_utf8(text@),
                ovs == self.spec_overrides(),
                ovs == self.handler_overrides@,
                slice_ok(h, start as int, end as int),
                overrides_ok(h, ovs, start as int, end as int),
                0 <= i <= ovs.len(),
                start <= pos,
                pos < end ==> is_char_boundary(h, pos as int),
                splice_overrides(h, ovs, 0, start as int, end as int, Seq::empty(), start as int) == splice_overrides(
                    h,
                    ovs,
                    i as int,
                    start as int,
                    end as int,
                    encode_utf8(result@),
                    pos as int,
                ),
            decreases ovs.len() - i,
        {
            let ov_start = self.handler_overrides[i].0;
            let ov_end = self.handler_overrides[i].1;
            proof {
                assert(ovs[i as int] == self.handler_overrides@[i as int]);
            }
            if ov_end <= start || ov_start >= end {
                i = i + 1;
                continue;
            }
            proof {
                assert(is_char_boundary(h, ov_start as int));
            }
            let ghost acc0 = encode_utf8(result@);
            if ov_start > pos {
                let upto = if ov_start < end { ov_start } else { end };
                let piece = slice_text(text, pos, upto);
                let ghost before = result@;
                result.append(piece.as_str());
                proof {
                    lemma_encode_utf8_append(before, piece@);
                }
            }
            let ghost acc1 = encode_utf8(result@);
            let overlap_start = if ov_start > start { ov_start } else { start };
            let overlap_end = if ov_end < end { ov_end } else { end };
            if overlap_start < overlap_end {
                let ghost before = result@;
                result.append(self.handler_overrides[i].2.as_str());
                proof {
                    lemma_encode_utf8_append(before, ovs[i as int].2@);
                }
            }
            pos = ov_end;
            i = i + 1;
        }
        if pos < end {
            let piece = slice_text(text, pos, end);
            let ghost before = result@;
            result.append(piece.as_str());
            proof {
                lemma_encode_utf8_append(before, piece@);
            }
        }
        result
    }

    /// The text captured by group `index` (with handler overrides applied).
    pub fn get_text(&self, index: usize, text: &str) -> (r: Option<String>)
        requires
            self.spec_get(index as int) matches Some((s, e)) ==> slice_ok(encode_utf8(text@), s as int, e as int)
                && overrides_ok(encode_utf8(text@), self.spec_overrides(), s as int, e as int),
        ensures
            match self.spec_get(index as int) {
                None => r is None,
                Some((s, e)) => r matches Some(t) && encode_utf8(t@) == if self.spec_overrides().len() == 0 {
                    encode_utf8(text@).subrange(s as int, e as int)
                } else {
                    splice_overrides(encode_utf8(text@), self.spec_overrides(), 0, s as int, e as int, Seq::empty(), s as int)
                },
            },
    {
        match self.get(index) {
            Some((start, end)) => {
                if self.handler_overrides.len() == 0 {
                    Some(slice_text(text, start, end))
                } else {
                    Some(self.apply_overrides(text, start, end))
                }
            },
            None => None,
        }
    }
}

/// Builder for a capture state with named groups.
pub struct CaptureStateBuilder {
    group_count: usize,
    names: Vec<(String, usize)>,
}

impl CaptureStateBuilder {
    pub closed spec fn spec_group_count(&self) -> usize {
        self.group_count
    }

    pub closed spec fn spec_name(&self, k: Seq<char>) -> Option<usize> {
        name_lookup(self.names@, k)
    }

    pub closed spec fn wf(&self) -> bool {
        names_unique(self.names@)
    }

    /// How many names are registered.
    pub closed spec fn spec_name_count(&self) -> nat {
        self.names@.len()
    }

    /// A builder for `group_count` groups and no names.
    pub fn new(group_count: usize) -> (r: Self)
        ensures
            r.wf(),
            r.spec_group_count() == group_count,
            forall|k: Seq<char>| #[trigger] r.spec_name(k) is None,
            r.spec_name_count() == 0,
    {
        CaptureStateBuilder { group_count, names: Vec::new() }
    }

    /// Registers `name` for group `index`.
    pub fn with_name(self, name: String, index: usize) -> (r: Self)
        requires
            self.wf(),
        ensures
            r.wf(),
            r.spec_group_count() == self.spec_group_count(),
            forall|k: Seq<char>| #[trigger] r.spec_name(k) == if k == name@ {
                Some(index)
            } else {
                self.spec_name(k)
            },
            r.spec_name_count() == self.spec_name_count() + if self.spec_name(name@) is None {
                1int
            } else {
                0int
            },
    {
        let mut b = self;
        names_insert(&mut b.names, name, index);
        b
    }

    /// The capture state: every slot unset, with the registered names.
    pub fn build(self) -> (r: CaptureState)
        requires
            self.wf(),
            self.spec_group_count() < usize::MAX,
        ensures
            r.wf(),
            r.spec_slots() == Seq::new((self.spec_group_count() + 1) as nat, |i: int| None::<(usize, usize)>),
            forall|k: Seq<char>| #[trigger] r.spec_name(k) == self.spec_name(k),
            r.spec_names().len() == self.spec_name_count(),
            r.spec_overrides().len() == 0,
    {
        let slots = empty_slots(self.group_count + 1);
        CaptureState { slots, names: self.names, handler_overrides: Vec::new() }
    }
}

} // verus!
