//! Fuzzy literal matches kept by pattern and start position.
use vstd::prelude::*;

verus! {

/// One fuzzy match of a literal: where it ends (byte offset, exclusive),
/// the place of its similarity in the caller's order of scores, and its
/// edit counts.
#[derive(Clone, Copy, Debug, PartialEq, Eq)]
pub struct FuzzyMatchResult {
    pub end: usize,
    pub similarity_place: u32,
    pub insertions: u8,
    pub deletions: u8,
    pub substitutions: u8,
    pub swaps: u8,
}

impl FuzzyMatchResult {
    /// The number of edits, saturating at 255.
    pub fn total_edits(&self) -> (r: u8)
        ensures
            r == if self.insertions + self.deletions + self.substitutions + self.swaps > 255 {
                255
            } else {
                self.insertions + self.deletions + self.substitutions + self.swaps
            },
    {
        self.insertions.saturating_add(self.deletions).saturating_add(self.substitutions).saturating_add(self.swaps)
    }
}

/// The results stored under key `k` (none when the key is absent).
pub open spec fn entry_lookup(entries: Seq<((usize, usize), Vec<FuzzyMatchResult>)>, k: (usize, usize)) -> Seq<
    FuzzyMatchResult,
> {
    if exists|i: int| 0 <= i < entries.len() && (#[trigger] entries[i]).0 == k {
        entries[choose|i: int| 0 <= i < entries.len() && (#[trigger] entries[i]).0 == k].1@
    } else {
        seq![]
    }
}

/// No key is stored twice, and every stored list holds a result.
pub open spec fn entries_ok(entries: Seq<((usize, usize), Vec<FuzzyMatchResult>)>) -> bool {
    &&& forall|i: int, j: int| 0 <= i < j < entries.len() ==> (#[trigger] entries[i]).0 != (#[trigger] entries[j]).0
    &&& forall|i: int| 0 <= i < entries.len() ==> (#[trigger] entries[i]).1@.len() > 0
}

/// `v` with every end moved forward by `offset`.
pub open spec fn shift_ends(v: Seq<FuzzyMatchResult>, offset: int) -> Seq<FuzzyMatchResult> {
    v.map_values(|m: FuzzyMatchResult| FuzzyMatchResult { end: (m.end + offset) as usize, ..m })
}

proof fn lemma_lookup_at(entries: Seq<((usize, usize), Vec<FuzzyMatchResult>)>, i: int)
    requires
        entries_ok(entries),
        0 <= i < entries.len(),
    ensures
        entry_lookup(entries, entries[i].0) == entries[i].1@,
{
    let k = entries[i].0;
    let j = choose|j: int| 0 <= j < entries.len() && (#[trigger] entries[j]).0 == k;
    if j < i {
        assert(entries[j].0 != entries[i].0);
    } else if j > i {
        assert(entries[i].0 != entries[j].0);
    }
}

/// Matches of several fuzzy literals, kept by pattern index and start
/// position, in the order they were recorded.
pub struct CachedMatches {
    entries: Vec<((usize, usize), Vec<FuzzyMatchResult>)>,
}

impl CachedMatches {
    pub closed spec fn wf(&self) -> bool {
        entries_ok(self.entries@)
    }

    /// The results recorded for pattern `p` at start `s`, in order.
    pub closed spec fn spec_get_all(&self, p: usize, s: usize) -> Seq<FuzzyMatchResult> {
        entry_lookup(self.entries@, (p, s))
    }

    /// The stored keys with their results, in the order the keys were first used.
    pub closed spec fn spec_entries(&self) -> Seq<((usize, usize), Vec<FuzzyMatchResult>)> {
        self.entries@
    }

    /// An empty cache.
    pub fn new() -> (r: Self)
        ensures
            r.wf(),
            forall|p: usize, s: usize| #[trigger] r.spec_get_all(p, s) == Seq::<FuzzyMatchResult>::empty(),
            r.spec_entries().len() == 0,
    {
        CachedMatches { entries: Vec::new() }
    }

    fn index_of(&self, k: (usize, usize)) -> (r: Option<usize>)
        requires
            self.wf(),
        ensures
            match r {
                Some(i) => i < self.entries@.len() && self.entries@[i as int].0 == k,
                None => forall|i: int| 0 <= i < self.entries@.len() ==> (#[trigger] self.entries@[i]).0 != k,
            },
    {
        let mut i: usize = 0;
        while i < self.entries.len()
            invariant
                i <= self.entries@.len(),
                forall|j: int| 0 <= j < i ==> (#[trigger] self.entries@[j]).0 != k,
            decreases self.entries@.len() - i,
        {
            let key = self.entries[i].0;
            if key.0 == k.0 && key.1 == k.1 {
                return Some(i);
            }
            i = i + 1;
        }
        None
    }

    /// The first result recorded for pattern `pattern_index` at `start`.
    pub fn get(&self, pattern_index: usize, start: usize) -> (r: Option<&FuzzyMatchResult>)
        requires
            self.wf(),
        ensures
            r is Some <==> self.spec_get_all(pattern_index, start).len() > 0,
            r matches Some(x) ==> *x == self.spec_get_all(pattern_index, start)[0],
    {
        match self.index_of((pattern_index, start)) {
            Some(i) => {
                proof {
                    lemma_lookup_at(self.entries@, i as int);
                }
                let v = &self.entries[i].1;
                Some(&v[0])
            },
            None => None,
        }
    }

    /// Every result recorded for pattern `pattern_index` at `start`.
    pub fn get_all(&self, pattern_index: usize, start: usize) -> (r: Option<&[FuzzyMatchResult]>)
        requires
            self.wf(),
        ensures
            r is Some <==> self.spec_get_all(pattern_index, start).len() > 0,
            r matches Some(x) ==> x@ == self.spec_get_all(pattern_index, start),
    {
        match self.index_of((pattern_index, start)) {
            Some(i) => {
                proof {
                    lemma_lookup_at(self.entries@, i as int);
                }
                Some(self.entries[i].1.as_slice())
            },
            None => None,
        }
    }

    /// Records `result` after those already recorded for pattern
    /// `pattern_index` at `start`.
    pub fn insert(&mut self, pattern_index: usize, start: usize, result: FuzzyMatchResult)
        requires
            old(self).wf(),
        ensures
            final(self).wf(),
            forall|p: usize, s: usize| #[trigger] final(self).spec_get_all(p, s) == if p == pattern_index && s == start {
                old(self).spec_get_all(p, s).push(result)
            } else {
                old(self).spec_get_all(p, s)
            },
    {
        let k = (pattern_index, start);
        let ghost before = self.entries@;
        match self.index_of(k) {
            Some(i) => {
                let mut v: Vec<FuzzyMatchResult> = Vec::new();
                std::mem::swap(&mut v, &mut self.entries[i].1);
                let ghost old_v = v@;
                proof {
                    assert(old_v == before[i as int].1@);
                }
                v.push(result);
                self.entries.set(i, (k, v));
                proof {
                    let after = self.entries@;
                    assert forall|a: int, b: int| 0 <= a < b < after.len() implies (#[trigger] after[a]).0 != (#[trigger] after[b]).0 by {
                        assert(before[a].0 != before[b].0);
                    }
                    assert(entries_ok(after));
                    lemma_lookup_at(before, i as int);
                    lemma_lookup_at(after, i as int);
                    assert forall|p: usize, s: usize| #[trigger] entry_lookup(after, (p, s)) == if p == pattern_index && s == start {
                        entry_lookup(before, (p, s)).push(result)
                    } else {
                        entry_lookup(before, (p, s))
                    } by {
                        if !(p == pattern_index && s == start) {
                            if exists|j: int| 0 <= j < before.len() && (#[trigger] before[j]).0 == (p, s) {
                                let j = choose|j: int| 0 <= j < before.len() && (#[trigger] before[j]).0 == (p, s);
                                lemma_lookup_at(before, j);
                                lemma_lookup_at(after, j);
                            } else {
                                assert forall|j: int| 0 <= j < after.len() implies (#[trigger] after[j]).0 != (p, s) by {
                                    assert(before[j].0 != (p, s));
                                }
                            }
                        }
                    }
                }
            },
            None => {
                let mut v: Vec<FuzzyMatchResult> = Vec::new();
                v.push(result);
                self.entries.push((k, v));
                proof {
                    let after = self.entries@;
                    let n = before.len() as int;
                    assert(after[n].0 == k);
                    assert(after[n].1@ == seq![result]);
                    assert forall|a: int, b: int| 0 <= a < b < after.len() implies (#[trigger] after[a]).0 != (#[trigger] after[b]).0 by {
                        if b < n {
                            assert(before[a].0 != before[b].0);
                        }
                    }
                    assert(entries_ok(after));
                    lemma_lookup_at(after, n);
                    assert(entry_lookup(before, k) == Seq::<FuzzyMatchResult>::empty());
                    assert(seq![result] =~= Seq::<FuzzyMatchResult>::empty().push(result));
                    assert forall|p: usize, s: usize| #[trigger] entry_lookup(after, (p, s)) == if p == pattern_index && s == start {
                        entry_lookup(before, (p, s)).push(result)
                    } else {
                        entry_lookup(before, (p, s))
                    } by {
                        if !(p == pattern_index && s == start) {
                            if exists|j: int| 0 <= j < before.len() && (#[trigger] before[j]).0 == (p, s) {
                                let j = choose|j: int| 0 <= j < before.len() && (#[trigger] before[j]).0 == (p, s);
                                lemma_lookup_at(before, j);
                                lemma_lookup_at(after, j);
                            } else {
                                assert forall|j: int| 0 <= j < after.len() implies (#[trigger] after[j]).0 != (p, s) by {
                                    if j < n {
                                        assert(before[j].0 != (p, s));
                                    }
                                }
                            }
                        }
                    }
                }
            },
        }
    }

    /// The keys with their results, in the order the keys were first used.
    pub fn iter(&self) -> (r: &Vec<((usize, usize), Vec<FuzzyMatchResult>)>)
        requires
            self.wf(),
        ensures
            r@ == self.spec_entries(),
            forall|i: int| 0 <= i < r@.len() ==> #[trigger] self.spec_get_all(r@[i].0.0, r@[i].0.1) == r@[i].1@,
            forall|p: usize, s: usize|
                #[trigger] self.spec_get_all(p, s).len() > 0 ==> exists|i: int| 0 <= i < r@.len() && (#[trigger] r@[i]).0 == (p, s),
    {
        proof {
            assert forall|i: int| 0 <= i < self.entries@.len() implies #[trigger] self.spec_get_all(
                self.entries@[i].0.0,
                self.entries@[i].0.1,
            ) == self.entries@[i].1@ by {
                lemma_lookup_at(self.entries@, i);
            }
        }
        &self.entries
    }

    /// Nothing is recorded.
    pub fn is_empty(&self) -> (r: bool)
        requires
            self.wf(),
        ensures
            r <==> forall|p: usize, s: usize| #[trigger] self.spec_get_all(p, s).len() == 0,
    {
        proof {
            if self.entries@.len() > 0 {
                lemma_lookup_at(self.entries@, 0);
                let k = self.entries@[0].0;
                assert(self.spec_get_all(k.0, k.1).len() > 0);
            }
        }
        self.entries.len() == 0
    }

    /// Every start and every end moved forward by `offset`, as if the
    /// search had run on a text with `offset` more bytes in front.
    pub fn shifted(self, offset: usize) -> (r: Self)
        requires
            self.wf(),
            forall|i: int| 0 <= i < self.spec_entries().len() ==> (#[trigger] self.spec_entries()[i]).0.1 + offset <= usize::MAX,
            forall|i: int, j: int|
                0 <= i < self.spec_entries().len() && 0 <= j < self.spec_entries()[i].1@.len() ==> #[trigger] self.spec_entries()[i].1@[j].end
                    + offset <= usize::MAX,
        ensures
            r.wf(),
            forall|p: usize, s: usize|
                s + offset <= usize::MAX ==> #[trigger] r.spec_get_all(p, (s + offset) as usize) == shift_ends(
                    self.spec_get_all(p, s),
                    offset as int,
                ),
            forall|p: usize, s: usize| s < offset ==> #[trigger] r.spec_get_all(p, s).len() == 0,
    {
        let ghost src = self.entries@;
        if offset == 0 {
            proof {
                assert forall|p: usize, s: usize| s + offset <= usize::MAX implies #[trigger] self.spec_get_all(p, (s + offset) as usize) == shift_ends(
                    self.spec_get_all(p, s),
                    offset as int,
                ) by {
                    assert(shift_ends(self.spec_get_all(p, s), 0) =~= self.spec_get_all(p, s));
                }
            }
            return self;
        }
        proof {
            assert forall|a: int| 0 <= a < src.len() implies (#[trigger] src[a]).0.1 + offset <= usize::MAX by {
                assert(self.spec_entries()[a] == src[a]);
            }
            assert forall|a: int, j: int| 0 <= a < src.len() && 0 <= j < src[a].1@.len() implies #[trigger] src[a].1@[j].end
                + offset <= usize::MAX by {
                assert(self.spec_entries()[a] == src[a]);
            }
        }
        let mut out: Vec<((usize, usize), Vec<FuzzyMatchResult>)> = Vec::new();
        let mut i: usize = 0;
        while i < self.entries.len()
            invariant
                src == self.entries@,
                entries_ok(src),
                forall|a: int| 0 <= a < src.len() ==> (#[trigger] src[a]).0.1 + offset <= usize::MAX,
                forall|a: int, j: int| 0 <= a < src.len() && 0 <= j < src[a].1@.len() ==> #[trigger] src[a].1@[j].end + offset <= usize::MAX,
                i <= src.len(),
                out@.len() == i,
                forall|a: int| 0 <= a < i ==> (#[trigger] out@[a]).0 == (src[a].0.0, (src[a].0.1 + offset) as usize) && out@[a].1@
                    == shift_ends(src[a].1@, offset as int),
            decreases src.len() - i,
        {
            let (key, results) = &self.entries[i];
            let mut moved: Vec<FuzzyMatchResult> = Vec::new();
            let mut j: usize = 0;
            while j < results.len()
                invariant
                    *results == src[i as int].1,
                    forall|x: int| 0 <= x < results@.len() ==> #[trigger] results@[x].end + offset <= usize::MAX,
                    j <= results@.len(),
                    moved@ == shift_ends(results@.take(j as int), offset as int),
                decreases results@.len() - j,
            {
                let m = results[j];
                moved.push(FuzzyMatchResult { end: m.end + offset, ..m });
                proof {
                    assert(results@.take(j + 1) =~= results@.take(j as int).push(m));
                    assert(moved@ =~= shift_ends(results@.take(j + 1), offset as int));
                }
                j = j + 1;
            }
            proof {
                assert(results@.take(results@.len() as int) =~= results@);
            }
            out.push(((key.0, key.1 + offset), moved));
            i = i + 1;
        }
        proof {
            let o = out@;
            assert forall|a: int, b: int| 0 <= a < b < o.len() implies (#[trigger] o[a]).0 != (#[trigger] o[b]).0 by {
                assert(src[a].0 != src[b].0);
            }
            assert forall|a: int| 0 <= a < o.len() implies (#[trigger] o[a]).1@.len() > 0 by {
                assert(src[a].1@.len() > 0);
            }
            assert(entries_ok(o));
            assert forall|p: usize, s: usize| s + offset <= usize::MAX implies #[trigger] entry_lookup(o, (p, (s + offset) as usize))
                == shift_ends(entry_lookup(src, (p, s)), offset as int) by {
                let k2 = (p, (s + offset) as usize);
                if exists|a: int| 0 <= a < src.len() && (#[trigger] src[a]).0 == (p, s) {
                    let a = choose|a: int| 0 <= a < src.len() && (#[trigger] src[a]).0 == (p, s);
                    lemma_lookup_at(src, a);
                    lemma_lookup_at(o, a);
                } else {
                    assert forall|a: int| 0 <= a < o.len() implies (#[trigger] o[a]).0 != k2 by {
                        assert(src[a].0 != (p, s));
                    }
                    assert(shift_ends(Seq::<FuzzyMatchResult>::empty(), offset as int) =~= Seq::<FuzzyMatchResult>::empty());
                }
            }
            assert forall|p: usize, s: usize| s < offset implies #[trigger] entry_lookup(o, (p, s)).len() == 0 by {
                assert forall|a: int| 0 <= a < o.len() implies (#[trigger] o[a]).0 != (p, s) by {}
            }
        }
        CachedMatches { entries: out }
    }
}

impl Default for CachedMatches {
    fn default() -> (r: Self)
        ensures
            r.wf(),
            forall|p: usize, s: usize| #[trigger] r.spec_get_all(p, s) == Seq::<FuzzyMatchResult>::empty(),
    {
        CachedMatches::new()
    }
}

} // verus!
