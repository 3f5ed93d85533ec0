//! Prefilters: cheap byte-level tests that pick the positions at which the
//! DFA is worth running, and the analysis of the NFA that chooses them.
use vstd::prelude::*;
use crate::bytesearch::{find_byte, find_byte2, find_byte3, find_substring, occurs_at, is_first_where};
use crate::simd_class::RevSearchRanges;
use crate::nfa::{Nfa, State, CharClass, NamedClass};
use vstd::utf8::{encode_scalar, is_scalar, char_is_scalar, encode_utf8};
use vstd::string::StringSliceAdditionalSpecFns;

verus! {

/// How candidate start positions are found.
pub enum DfaPrefilter {
    /// Every position is a candidate.
    Disabled,
    SingleByte(u8),
    TwoBytes(u8, u8),
    ThreeBytes(u8, u8, u8),
    /// Any of more than three bytes.
    ManyBytes(Vec<u8>),
    /// A literal prefix.
    Literal(Vec<u8>),
    /// A byte in one of a few inclusive ranges.
    CharClassRanges(Vec<(u8, u8)>),
}

/// `b` lies in one of the inclusive ranges `r`.
pub open spec fn in_ranges(r: Seq<(u8, u8)>, b: u8) -> bool {
    exists|i: int| 0 <= i < r.len() && (#[trigger] r[i]).0 <= b <= r[i].1
}

/// Byte position `p` of `h` is a candidate match start under `pf`.
pub open spec fn pf_admits(pf: DfaPrefilter, h: Seq<u8>, p: int) -> bool {
    match pf {
        DfaPrefilter::Disabled => 0 <= p <= h.len(),
        DfaPrefilter::SingleByte(a) => 0 <= p < h.len() && h[p] == a,
        DfaPrefilter::TwoBytes(a, b) => 0 <= p < h.len() && (h[p] == a || h[p] == b),
        DfaPrefilter::ThreeBytes(a, b, c) => 0 <= p < h.len() && (h[p] == a || h[p] == b || h[p] == c),
        DfaPrefilter::ManyBytes(v) => 0 <= p < h.len() && v@.contains(h[p]),
        DfaPrefilter::Literal(l) => occurs_at(h, l@, p),
        DfaPrefilter::CharClassRanges(r) => 0 <= p < h.len() && in_ranges(r@, h[p]),
    }
}

/// A literal prefilter never holds the empty literal.
pub open spec fn pf_wf(pf: DfaPrefilter) -> bool {
    match pf {
        DfaPrefilter::Literal(l) => l@.len() > 0,
        _ => true,
    }
}

proof fn lemma_occurs_sub(h: Seq<u8>, l: Seq<u8>, offset: int, i: int)
    requires
        0 <= offset <= h.len(),
        0 <= i,
    ensures
        occurs_at(h.subrange(offset, h.len() as int), l, i) == occurs_at(h, l, offset + i),
{
    let t = h.subrange(offset, h.len() as int);
    if i + l.len() <= t.len() {
        assert(t.subrange(i, i + l.len()) =~= h.subrange(offset + i, offset + i + l.len()));
    }
}

fn copy_ranges(r: &Vec<(u8, u8)>) -> (out: Vec<(u8, u8)>)
    ensures
        out@ == r@,
{
    let mut out: Vec<(u8, u8)> = Vec::new();
    let mut i: usize = 0;
    while i < r.len()
        invariant
            0 <= i <= r@.len(),
            out@ == r@.subrange(0, i as int),
        decreases r@.len() - i,
    {
        out.push(r[i]);
        assert(out@ =~= r@.subrange(0, i + 1));
        i = i + 1;
    }
    assert(out@ =~= r@);
    out
}

/// The first position at or after `offset` that `pf` admits.
pub fn next_candidate(pf: &DfaPrefilter, bytes: &[u8], offset: usize) -> (r: Option<usize>)
    requires
        offset <= bytes@.len(),
        pf_wf(*pf),
        !(pf is Disabled),
    ensures
        match r {
            Some(p) => offset <= p < bytes@.len() && pf_admits(*pf, bytes@, p as int) && forall|q: int|
                offset <= q < p ==> !#[trigger] pf_admits(*pf, bytes@, q),
            None => forall|q: int| offset <= q <= bytes@.len() ==> !#[trigger] pf_admits(*pf, bytes@, q),
        },
{
    let len = bytes.len();
    let rest = &bytes[offset..len];
    let ghost h = bytes@;
    assert(rest@ == h.subrange(offset as int, len as int));
    match pf {
        DfaPrefilter::Disabled => None,
        DfaPrefilter::SingleByte(a) => {
            let r = find_byte(*a, rest);
            proof {
                assert forall|q: int| offset <= q < h.len() implies (#[trigger] h[q] == *a) == (rest@[q - offset] == *a) by {
                    assert(rest@[q - offset] == h[q]);
                }
            }
            match r {
                Some(i) => {
                    proof {
                        assert forall|q: int| offset <= q < offset + i implies !#[trigger] pf_admits(*pf, h, q) by {
                            assert(rest@[q - offset] != *a);
                        }
                    }
                    Some(offset + i)
                },
                None => {
                    proof {
                        assert forall|q: int| offset <= q <= h.len() implies !#[trigger] pf_admits(*pf, h, q) by {
                            if q < h.len() {
                                assert(rest@[q - offset] != *a);
                            }
                        }
                    }
                    None
                },
            }
        },
        DfaPrefilter::TwoBytes(a, b) => {
            let r = find_byte2(*a, *b, rest);
            match r {
                Some(i) => {
                    proof {
                        assert(rest@[i as int] == h[offset + i]);
                        assert forall|q: int| offset <= q < offset + i implies !#[trigger] pf_admits(*pf, h, q) by {
                            let x = rest@[q - offset];
                            assert(!(x == *a || x == *b));
                            assert(x == h[q]);
                        }
                    }
                    Some(offset + i)
                },
                None => {
                    proof {
                        assert forall|q: int| offset <= q <= h.len() implies !#[trigger] pf_admits(*pf, h, q) by {
                            if q < h.len() {
                                let x = rest@[q - offset];
                                assert(!(x == *a || x == *b));
                                assert(x == h[q]);
                            }
                        }
                    }
                    None
                },
            }
        },
        DfaPrefilter::ThreeBytes(a, b, c) => {
            let r = find_byte3(*a, *b, *c, rest);
            match r {
                Some(i) => {
                    proof {
                        assert(rest@[i as int] == h[offset + i]);
                        assert forall|q: int| offset <= q < offset + i implies !#[trigger] pf_admits(*pf, h, q) by {
                            let x = rest@[q - offset];
                            assert(!(x == *a || x == *b || x == *c));
                            assert(x == h[q]);
                        }
                    }
                    Some(offset + i)
                },
                None => {
                    proof {
                        assert forall|q: int| offset <= q <= h.len() implies !#[trigger] pf_admits(*pf, h, q) by {
                            if q < h.len() {
                                let x = rest@[q - offset];
                                assert(!(x == *a || x == *b || x == *c));
                                assert(x == h[q]);
                            }
                        }
                    }
                    None
                },
            }
        },
        DfaPrefilter::ManyBytes(needles) => {
            let mut table: Vec<bool> = Vec::new();
            let mut x: usize = 0;
            while x < 256
                invariant
                    0 <= x <= 256,
                    table@.len() == x,
                    forall|y: int| 0 <= y < x ==> !#[trigger] table@[y],
                decreases 256 - x,
            {
                table.push(false);
                x = x + 1;
            }
            let mut i: usize = 0;
            while i < needles.len()
                invariant
                    0 <= i <= needles@.len(),
                    table@.len() == 256,
                    forall|y: int| 0 <= y < 256 ==> #[trigger] table@[y] == needles@.subrange(0, i as int).contains(y as u8),
                decreases needles@.len() - i,
            {
                let nb = needles[i];
                table.set(nb as usize, true);
                proof {
                    assert forall|y: int| 0 <= y < 256 implies #[trigger] table@[y] == needles@.subrange(0, i + 1).contains(y as u8) by {
                        let pre = needles@.subrange(0, i as int);
                        let post = needles@.subrange(0, i + 1);
                        assert(post =~= pre.push(nb));
                        if pre.contains(y as u8) {
                            let k = choose|k: int| 0 <= k < pre.len() && pre[k] == y as u8;
                            assert(post[k] == y as u8);
                        }
                        if post.contains(y as u8) && y as u8 != nb {
                            let k = choose|k: int| 0 <= k < post.len() && post[k] == y as u8;
                            assert(k < pre.len());
                            assert(pre[k] == y as u8);
                        }
                        if y == nb as int {
                            assert(post[i as int] == nb);
                        }
                    }
                }
                i = i + 1;
            }
            assert(needles@.subrange(0, needles@.len() as int) =~= needles@);
            let mut p: usize = offset;
            while p < len
                invariant
                    offset <= p <= len,
                    len == h.len(),
                    h == bytes@,
                    table@.len() == 256,
                    *pf == DfaPrefilter::ManyBytes(*needles),
                    forall|y: int| 0 <= y < 256 ==> #[trigger] table@[y] == needles@.contains(y as u8),
                    forall|q: int| offset <= q < p ==> !#[trigger] pf_admits(*pf, h, q),
                decreases len - p,
            {
                let byte = bytes[p];
                proof {
                    let y: int = byte as int;
                    assert(y as u8 == byte);
                    assert(table@[y] == needles@.contains(byte));
                    assert(h[p as int] == byte);
                }
                if table[byte as usize] {
                    return Some(p);
                }
                p = p + 1;
            }
            None
        },
        DfaPrefilter::Literal(lit) => {
            let r = find_substring(rest, lit.as_slice());
            match r {
                Some(i) => {
                    proof {
                        lemma_occurs_sub(h, lit@, offset as int, i as int);
                        assert forall|q: int| offset <= q < offset + i implies !#[trigger] pf_admits(*pf, h, q) by {
                            lemma_occurs_sub(h, lit@, offset as int, q - offset);
                            assert(!occurs_at(rest@, lit@, q - offset));
                        }
                    }
                    Some(offset + i)
                },
                None => {
                    proof {
                        assert forall|q: int| offset <= q <= h.len() implies !#[trigger] pf_admits(*pf, h, q) by {
                            lemma_occurs_sub(h, lit@, offset as int, q - offset);
                            assert(!occurs_at(rest@, lit@, q - offset));
                        }
                    }
                    None
                },
            }
        },
        DfaPrefilter::CharClassRanges(ranges) => {
            let searcher = RevSearchRanges::new(copy_ranges(ranges));
            let r = searcher.find_first(rest);
            match r {
                Some(i) => {
                    proof {
                        assert(rest@[i as int] == h[offset + i]);
                        assert forall|q: int| offset <= q < offset + i implies !#[trigger] pf_admits(*pf, h, q) by {
                            assert(!searcher.spec_matches(rest@[q - offset]));
                            assert(rest@[q - offset] == h[q]);
                        }
                    }
                    Some(offset + i)
                },
                None => {
                    proof {
                        assert forall|q: int| offset <= q <= h.len() implies !#[trigger] pf_admits(*pf, h, q) by {
                            if q < h.len() {
                                assert(!searcher.spec_matches(rest@[q - offset]));
                                assert(rest@[q - offset] == h[q]);
                            }
                        }
                    }
                    None
                },
            }
        },
    }
}

} // verus!

verus! {

/// The bytes `r.0 ..= r.1`, in increasing order.
pub open spec fn range_bytes(r: (u8, u8)) -> Seq<u8> {
    Seq::new((r.1 - r.0 + 1) as nat, |k: int| (r.0 + k) as u8)
}

/// The bytes of a list of inclusive ranges, range after range.
pub open spec fn expand_ranges(rs: Seq<(u8, u8)>) -> Seq<u8>
    decreases rs.len(),
{
    if rs.len() == 0 {
        Seq::empty()
    } else {
        expand_ranges(rs.drop_last()) + range_bytes(rs.last())
    }
}

/// `rs` splits a byte sequence into maximal runs of consecutive values.
pub open spec fn maximal_runs(rs: Seq<(u8, u8)>) -> bool {
    &&& forall|i: int| 0 <= i < rs.len() ==> (#[trigger] rs[i]).0 <= rs[i].1
    &&& forall|i: int| 0 <= i < rs.len() - 1 ==> (#[trigger] rs[i + 1]).0 != rs[i].1 + 1
}

proof fn lemma_range_extend(s: u8, e: u8)
    requires
        s <= e < 255,
    ensures
        range_bytes((s, (e + 1) as u8)) == range_bytes((s, e)).push((e + 1) as u8),
{
    assert(range_bytes((s, (e + 1) as u8)) =~= range_bytes((s, e)).push((e + 1) as u8));
}

proof fn lemma_in_expand(rs: Seq<(u8, u8)>, x: u8)
    requires
        forall|i: int| 0 <= i < rs.len() ==> (#[trigger] rs[i]).0 <= rs[i].1,
    ensures
        expand_ranges(rs).contains(x) == in_ranges(rs, x),
    decreases rs.len(),
{
    if rs.len() > 0 {
        let init = rs.drop_last();
        let last = rs.last();
        lemma_in_expand(init, x);
        let a = expand_ranges(init);
        let b = range_bytes(last);
        if b.contains(x) {
            let k = choose|k: int| 0 <= k < b.len() && b[k] == x;
            assert(rs[rs.len() - 1].0 <= x <= rs[rs.len() - 1].1);
            assert((a + b)[a.len() + k] == x);
        }
        if last.0 <= x <= last.1 {
            assert(b[x - last.0] == x);
            assert((a + b)[a.len() + (x - last.0)] == x);
        }
        if in_ranges(init, x) {
            let i = choose|i: int| 0 <= i < init.len() && (#[trigger] init[i]).0 <= x <= init[i].1;
            assert(rs[i] == init[i]);
        }
        if in_ranges(rs, x) && !(last.0 <= x <= last.1) {
            let i = choose|i: int| 0 <= i < rs.len() && (#[trigger] rs[i]).0 <= x <= rs[i].1;
            assert(i < rs.len() - 1);
            assert(init[i] == rs[i]);
        }
        if (a + b).contains(x) {
            let k = choose|k: int| 0 <= k < (a + b).len() && (a + b)[k] == x;
            if k < a.len() {
                assert(a[k] == x);
            } else {
                assert(b[k - a.len()] == x);
            }
        }
        if a.contains(x) {
            let k = choose|k: int| 0 <= k < a.len() && a[k] == x;
            assert((a + b)[k] == x);
        }
    }
}

} // verus!

verus! {

impl crate::dfa::Dfa {
    /// Splits a byte list into runs of consecutive values, as inclusive ranges.
    /// For example `[0, 1, 2, 5, 6, 7, 10]` becomes `[(0, 2), (5, 7), (10, 10)]`.
    pub fn bytes_to_ranges(bytes: &[u8]) -> (r: Vec<(u8, u8)>)
        requires
            forall|i: int| 0 <= i < bytes@.len() - 1 ==> bytes@[i] < 255,
        ensures
            maximal_runs(r@),
            expand_ranges(r@) == bytes@,
    {
        let mut ranges: Vec<(u8, u8)> = Vec::new();
        if bytes.len() == 0 {
            assert(expand_ranges(ranges@) =~= bytes@);
            return ranges;
        }
        let mut start: u8 = bytes[0];
        let mut end: u8 = bytes[0];
        let mut i: usize = 1;
        assert(range_bytes((start, end)) =~= bytes@.subrange(0, 1));
        assert(expand_ranges(ranges@) =~= Seq::<u8>::empty());
        while i < bytes.len()
            invariant
                1 <= i <= bytes@.len(),
                forall|j: int| 0 <= j < bytes@.len() - 1 ==> bytes@[j] < 255,
                start <= end,
                end == bytes@[i - 1],
                maximal_runs(ranges@),
                ranges@.len() > 0 ==> start != ranges@.last().1 + 1,
                expand_ranges(ranges@) + range_bytes((start, end)) == bytes@.subrange(0, i as int),
            decreases bytes@.len() - i,
        {
            let b = bytes[i];
            let ghost before = ranges@;
            if b == end + 1 {
                proof {
                    lemma_range_extend(start, end);
                    assert(bytes@.subrange(0, i + 1) =~= bytes@.subrange(0, i as int).push(b));
                    assert(expand_ranges(ranges@) + range_bytes((start, b)) =~= (expand_ranges(ranges@) + range_bytes((
                    start, end))).push(b));
                }
                end = b;
            } else {
                ranges.push((start, end));
                proof {
                    assert(ranges@.drop_last() =~= before);
                    assert(expand_ranges(ranges@) == expand_ranges(before) + range_bytes((start, end)));
                    assert(range_bytes((b, b)) =~= seq![b]);
                    assert(bytes@.subrange(0, i + 1) =~= bytes@.subrange(0, i as int).push(b));
                    assert(expand_ranges(ranges@) + range_bytes((b, b)) =~= bytes@.subrange(0, i + 1));
                    assert forall|j: int| 0 <= j < ranges@.len() - 1 implies (#[trigger] ranges@[j + 1]).0 != ranges@[j].1 + 1 by {
                        if j < before.len() - 1 {
                            assert(ranges@[j] == before[j] && ranges@[j + 1] == before[j + 1]);
                        }
                    }
                }
                start = b;
                end = b;
            }
            i = i + 1;
        }
        let ghost before = ranges@;
        ranges.push((start, end));
        proof {
            assert(ranges@.drop_last() =~= before);
            assert(bytes@.subrange(0, bytes@.len() as int) =~= bytes@);
            assert forall|j: int| 0 <= j < ranges@.len() - 1 implies (#[trigger] ranges@[j + 1]).0 != ranges@[j].1 + 1 by {
                if j < before.len() - 1 {
                    assert(ranges@[j] == before[j] && ranges@[j + 1] == before[j + 1]);
                }
            }
        }
        ranges
    }
}

} // verus!

verus! {

/// The bytes that a byte-based prefilter admits.
pub open spec fn pf_byte(pf: DfaPrefilter, x: u8) -> bool {
    match pf {
        DfaPrefilter::Disabled => false,
        DfaPrefilter::SingleByte(a) => x == a,
        DfaPrefilter::TwoBytes(a, b) => x == a || x == b,
        DfaPrefilter::ThreeBytes(a, b, c) => x == a || x == b || x == c,
        DfaPrefilter::ManyBytes(v) => v@.contains(x),
        DfaPrefilter::Literal(_) => false,
        DfaPrefilter::CharClassRanges(r) => in_ranges(r@, x),
    }
}

pub open spec fn byte_alpha(b: u8) -> bool {
    (65 <= b <= 90) || (97 <= b <= 122)
}

pub open spec fn byte_lower(b: u8) -> u8 {
    if 65 <= b <= 90 {
        (b + 32) as u8
    } else {
        b
    }
}

pub open spec fn byte_upper(b: u8) -> u8 {
    if 97 <= b <= 122 {
        (b - 32) as u8
    } else {
        b
    }
}

/// `x` is one of `bytes`, or (when `ci`) a case variant of an ASCII letter among them.
pub open spec fn case_closure_has(bytes: Seq<u8>, ci: bool, x: u8) -> bool {
    exists|i: int|
        0 <= i < bytes.len() && (#[trigger] bytes[i] == x || (ci && byte_alpha(bytes[i]) && (byte_lower(bytes[i]) == x
            || byte_upper(bytes[i]) == x)))
}

pub open spec fn no_dups(v: Seq<u8>) -> bool {
    forall|i: int, j: int| 0 <= i < j < v.len() ==> v[i] != v[j]
}

pub open spec fn strictly_increasing(v: Seq<u8>) -> bool {
    forall|i: int, j: int| 0 <= i < j < v.len() ==> v[i] < v[j]
}

fn contains_byte(v: &Vec<u8>, b: u8) -> (r: bool)
    ensures
        r == v@.contains(b),
{
    let mut i: usize = 0;
    while i < v.len()
        invariant
            0 <= i <= v@.len(),
            forall|j: int| 0 <= j < i ==> v@[j] != b,
        decreases v@.len() - i,
    {
        if v[i] == b {
            return true;
        }
        i = i + 1;
    }
    false
}

/// Appends `b` unless it is already present.
fn push_unique(v: &mut Vec<u8>, b: u8)
    requires
        no_dups(old(v)@),
    ensures
        final(v)@ == add_absent(old(v)@, b),
        no_dups(final(v)@),
        forall|x: u8| final(v)@.contains(x) == (old(v)@.contains(x) || x == b),
        old(v)@.len() <= final(v)@.len() <= old(v)@.len() + 1,
{
    if !contains_byte(v, b) {
        let ghost before = v@;
        v.push(b);
        proof {
            assert forall|x: u8| v@.contains(x) == (before.contains(x) || x == b) by {
                if v@.contains(x) && x != b {
                    let k = choose|k: int| 0 <= k < v@.len() && v@[k] == x;
                    assert(k < before.len());
                    assert(before[k] == x);
                }
                if before.contains(x) {
                    let k = choose|k: int| 0 <= k < before.len() && before[k] == x;
                    assert(v@[k] == x);
                }
                if x == b {
                    assert(v@[before.len() as int] == b);
                }
            }
        }
    }
}

/// The distinct values of `v` in increasing order.
fn sorted_unique(v: &Vec<u8>) -> (r: Vec<u8>)
    ensures
        strictly_increasing(r@),
        forall|x: u8| r@.contains(x) == v@.contains(x),
{
    let mut present: Vec<bool> = Vec::new();
    let mut x: usize = 0;
    while x < 256
        invariant
            0 <= x <= 256,
            present@.len() == x,
            forall|y: int| 0 <= y < x ==> !#[trigger] present@[y],
        decreases 256 - x,
    {
        present.push(false);
        x = x + 1;
    }
    let mut i: usize = 0;
    while i < v.len()
        invariant
            0 <= i <= v@.len(),
            present@.len() == 256,
            forall|y: int| 0 <= y < 256 ==> #[trigger] present@[y] == v@.subrange(0, i as int).contains(y as u8),
        decreases v@.len() - i,
    {
        let b = v[i];
        present.set(b as usize, true);
        proof {
            assert forall|y: int| 0 <= y < 256 implies #[trigger] present@[y] == v@.subrange(0, i + 1).contains(y as u8) by {
                let pre = v@.subrange(0, i as int);
                let post = v@.subrange(0, i + 1);
                assert(post =~= pre.push(b));
                if pre.contains(y as u8) {
                    let k = choose|k: int| 0 <= k < pre.len() && pre[k] == y as u8;
                    assert(post[k] == y as u8);
                }
                if post.contains(y as u8) && y as u8 != b {
                    let k = choose|k: int| 0 <= k < post.len() && post[k] == y as u8;
                    assert(k < pre.len());
                    assert(pre[k] == y as u8);
                }
                if y == b as int {
                    assert(post[i as int] == b);
                }
            }
        }
        i = i + 1;
    }
    assert(v@.subrange(0, v@.len() as int) =~= v@);
    let mut out: Vec<u8> = Vec::new();
    let mut y: usize = 0;
    while y < 256
        invariant
            0 <= y <= 256,
            present@.len() == 256,
            forall|z: int| 0 <= z < 256 ==> #[trigger] present@[z] == v@.contains(z as u8),
            strictly_increasing(out@),
            forall|k: int| 0 <= k < out@.len() ==> (#[trigger] out@[k]) < y,
            forall|z: u8| #[trigger] out@.contains(z) == (z < y && v@.contains(z)),
        decreases 256 - y,
    {
        if present[y] {
            let ghost before = out@;
            let yb: u8 = y as u8;
            out.push(yb);
            proof {
                assert(present@[y as int] == v@.contains((y as int) as u8));
                assert(v@.contains(yb));
                assert(out@ == before.push(yb));
                assert forall|z: u8| #[trigger] out@.contains(z) == (z < y + 1 && v@.contains(z)) by {
                    if z == yb {
                        assert(out@[before.len() as int] == z);
                        assert(out@.contains(z));
                    } else {
                        if out@.contains(z) {
                            let k = choose|k: int| 0 <= k < out@.len() && out@[k] == z;
                            assert(k < before.len());
                            assert(before[k] == z);
                            assert(before.contains(z));
                        }
                        if z < y && v@.contains(z) {
                            assert(before.contains(z));
                            let k = choose|k: int| 0 <= k < before.len() && before[k] == z;
                            assert(out@[k] == z);
                        }
                    }
                }
            }
        } else {
            proof {
                assert forall|z: u8| #[trigger] out@.contains(z) == (z < y + 1 && v@.contains(z)) by {
                    if z == y as u8 {
                        assert((y as int) as u8 == z);
                        assert(present@[y as int] == v@.contains(z));
                        if out@.contains(z) {
                            let k = choose|k: int| 0 <= k < out@.len() && out@[k] == z;
                            assert(out@[k] < y);
                        }
                    }
                }
            }
        }
        y = y + 1;
    }
    out
}

/// `v` with `b` appended unless it is already there.
pub open spec fn add_absent(v: Seq<u8>, b: u8) -> Seq<u8> {
    if v.contains(b) {
        v
    } else {
        v.push(b)
    }
}

/// `v` after folding `f` over `xs`, first to last.
pub open spec fn fold_bytes<A>(v: Seq<u8>, xs: Seq<A>, f: spec_fn(Seq<u8>, A) -> Seq<u8>) -> Seq<u8>
    decreases xs.len(),
{
    if xs.len() == 0 {
        v
    } else {
        f(fold_bytes(v, xs.drop_last(), f), xs.last())
    }
}

pub proof fn lemma_fold_step<A>(v: Seq<u8>, xs: Seq<A>, f: spec_fn(Seq<u8>, A) -> Seq<u8>, i: int)
    requires
        0 <= i < xs.len(),
    ensures
        fold_bytes(v, xs.take(i + 1), f) == f(fold_bytes(v, xs.take(i), f), xs[i]),
{
    assert(xs.take(i + 1).drop_last() =~= xs.take(i));
}

/// The bytes a multi-byte prefilter starts from: each byte once, in order
/// of first appearance, with the other case of each ASCII letter right after
/// it when case-insensitive.
pub open spec fn expand_bytes(bytes: Seq<u8>, ci: bool) -> Seq<u8> {
    fold_bytes(Seq::empty(), bytes, expand_step(ci))
}

/// One byte's contribution to [`expand_bytes`].
pub open spec fn expand_step(ci: bool) -> spec_fn(Seq<u8>, u8) -> Seq<u8> {
    |w: Seq<u8>, b: u8|
        if ci && byte_alpha(b) {
            add_absent(add_absent(w, byte_lower(b)), byte_upper(b))
        } else {
            add_absent(w, b)
        }
}

/// The number of maximal runs of consecutive values in `s`.
pub open spec fn run_count(s: Seq<u8>) -> nat
    decreases s.len(),
{
    if s.len() == 0 {
        0
    } else {
        run_count(s.drop_last()) + if s.len() >= 2 && s[s.len() - 1] == s[s.len() - 2] + 1 {
            0nat
        } else {
            1nat
        }
    }
}

/// `s` is the increasing sequence of the distinct values of `e`.
pub open spec fn sorted_set_of(s: Seq<u8>, e: Seq<u8>) -> bool {
    strictly_increasing(s) && forall|x: u8| s.contains(x) == e.contains(x)
}

/// The variant the multi-byte prefilter takes: one, two or three bytes in
/// order of appearance; beyond that the sorted bytes, as at most three
/// ranges when they form that few runs.
pub open spec fn multi_byte_shape(r: DfaPrefilter, bytes: Seq<u8>, ci: bool) -> bool {
    let e = expand_bytes(bytes, ci);
    if e.len() == 0 {
        r is Disabled
    } else if e.len() == 1 {
        r == DfaPrefilter::SingleByte(e[0])
    } else if e.len() == 2 {
        r == DfaPrefilter::TwoBytes(e[0], e[1])
    } else if e.len() == 3 {
        r == DfaPrefilter::ThreeBytes(e[0], e[1], e[2])
    } else {
        match r {
            DfaPrefilter::CharClassRanges(rs) => maximal_runs(rs@) && sorted_set_of(expand_ranges(rs@), e) && rs@.len() <= 3,
            DfaPrefilter::ManyBytes(v) => sorted_set_of(v@, e) && run_count(v@) > 3,
            _ => false,
        }
    }
}

proof fn lemma_range_last(lo: u8, hi: u8)
    requires
        lo <= hi,
    ensures
        range_bytes((lo, hi)).len() > 0,
        range_bytes((lo, hi)).last() == hi,
        range_bytes((lo, hi))[0] == lo,
{
}

proof fn lemma_run_count_append_range(a: Seq<u8>, lo: u8, hi: u8)
    requires
        lo <= hi,
        a.len() == 0 || a.last() + 1 != lo,
    ensures
        run_count(a + range_bytes((lo, hi))) == run_count(a) + 1,
    decreases hi - lo,
{
    if hi == lo {
        assert(range_bytes((lo, hi)) =~= seq![lo]);
        assert((a + seq![lo]).drop_last() =~= a);
    } else {
        let h1 = (hi - 1) as u8;
        lemma_run_count_append_range(a, lo, h1);
        lemma_range_extend(lo, h1);
        let x = a + range_bytes((lo, h1));
        assert(a + range_bytes((lo, hi)) =~= x.push(hi));
        assert(x.push(hi).drop_last() =~= x);
        lemma_range_last(lo, h1);
        assert(x.last() == h1);
    }
}

proof fn lemma_run_count_of_runs(rs: Seq<(u8, u8)>)
    requires
        maximal_runs(rs),
    ensures
        run_count(expand_ranges(rs)) == rs.len(),
        rs.len() > 0 ==> expand_ranges(rs).len() > 0 && expand_ranges(rs).last() == rs.last().1,
    decreases rs.len(),
{
    if rs.len() > 0 {
        let init = rs.drop_last();
        assert(maximal_runs(init)) by {
            assert forall|i: int| 0 <= i < init.len() - 1 implies (#[trigger] init[i + 1]).0 != init[i].1 + 1 by {
                assert(init[i + 1] == rs[i + 1]);
                assert(init[i] == rs[i]);
            }
        }
        lemma_run_count_of_runs(init);
        let last = rs.last();
        assert(last == rs[rs.len() - 1]);
        assert(last.0 <= last.1);
        if init.len() > 0 {
            let i = rs.len() - 2;
            assert(0 <= i < rs.len() - 1);
            assert(rs[i + 1].0 != rs[i].1 + 1);
            assert(rs[i + 1] == rs[rs.len() - 1]);
            assert(init.last() == rs[rs.len() - 2]);
        }
        lemma_run_count_append_range(expand_ranges(init), last.0, last.1);
        lemma_range_last(last.0, last.1);
        assert((expand_ranges(init) + range_bytes(last)).last() == last.1);
    }
}

/// A prefilter that admits any of `bytes` (and, when case-insensitive,
/// their case variants).
pub fn make_multi_byte_prefilter(bytes: &[u8], case_insensitive: bool) -> (r: DfaPrefilter)
    ensures
        (r is Disabled) == (bytes@.len() == 0),
        !(r is Literal),
        forall|x: u8| pf_byte(r, x) == case_closure_has(bytes@, case_insensitive, x),
        multi_byte_shape(r, bytes@, case_insensitive),
{
    if bytes.len() == 0 {
        return DfaPrefilter::Disabled;
    }
    let mut expanded: Vec<u8> = Vec::new();
    let mut i: usize = 0;
    while i < bytes.len()
        invariant
            0 <= i <= bytes@.len(),
            no_dups(expanded@),
            i > 0 ==> expanded@.len() > 0,
            forall|x: u8| expanded@.contains(x) == case_closure_has(bytes@.subrange(0, i as int), case_insensitive, x),
            expanded@ == fold_bytes(Seq::empty(), bytes@.take(i as int), expand_step(case_insensitive)),
        decreases bytes@.len() - i,
    {
        let b = bytes[i];
        proof {
            lemma_fold_step(Seq::<u8>::empty(), bytes@, expand_step(case_insensitive), i as int);
        }
        let ghost pre = bytes@.subrange(0, i as int);
        let ghost post = bytes@.subrange(0, i + 1);
        if case_insensitive && ((65 <= b && b <= 90) || (97 <= b && b <= 122)) {
            let lower: u8 = if 65 <= b && b <= 90 { b + 32 } else { b };
            let upper: u8 = if 97 <= b && b <= 122 { b - 32 } else { b };
            push_unique(&mut expanded, lower);
            push_unique(&mut expanded, upper);
            assert(expanded@.contains(upper));
        } else {
            push_unique(&mut expanded, b);
            assert(expanded@.contains(b));
        }
        proof {
            assert(post =~= pre.push(b));
            assert forall|x: u8| expanded@.contains(x) == case_closure_has(post, case_insensitive, x) by {
                if case_closure_has(pre, case_insensitive, x) {
                    let k = choose|k: int|
                        0 <= k < pre.len() && (#[trigger] pre[k] == x || (case_insensitive && byte_alpha(pre[k]) && (
                        byte_lower(pre[k]) == x || byte_upper(pre[k]) == x)));
                    assert(post[k] == pre[k]);
                }
                if case_closure_has(post, case_insensitive, x) {
                    let k = choose|k: int|
                        0 <= k < post.len() && (#[trigger] post[k] == x || (case_insensitive && byte_alpha(post[k]) && (
                        byte_lower(post[k]) == x || byte_upper(post[k]) == x)));
                    if k < pre.len() {
                        assert(post[k] == pre[k]);
                    }
                }
                assert(post[i as int] == b);
            }
        }
        i = i + 1;
    }
    proof {
        assert(bytes@.subrange(0, bytes@.len() as int) =~= bytes@);
        assert(bytes@.take(bytes@.len() as int) =~= bytes@);
        assert(expanded@ == expand_bytes(bytes@, case_insensitive));
        assert forall|x: u8| #[trigger] expanded@.contains(x) == case_closure_has(bytes@, case_insensitive, x) by {
            assert(expanded@.contains(x) == case_closure_has(bytes@.subrange(0, bytes@.len() as int), case_insensitive, x));
        }
    }
    if expanded.len() <= 3 {
        let r = if expanded.len() == 1 {
            DfaPrefilter::SingleByte(expanded[0])
        } else if expanded.len() == 2 {
            DfaPrefilter::TwoBytes(expanded[0], expanded[1])
        } else {
            DfaPrefilter::ThreeBytes(expanded[0], expanded[1], expanded[2])
        };
        proof {
            assert forall|x: u8| pf_byte(r, x) == case_closure_has(bytes@, case_insensitive, x) by {
                assert(expanded@.contains(x) == case_closure_has(bytes@, case_insensitive, x));
                if expanded@.contains(x) {
                    let k = choose|k: int| 0 <= k < expanded@.len() && expanded@[k] == x;
                    assert(k == 0 || k == 1 || k == 2);
                }
                if pf_byte(r, x) {
                    if x == expanded@[0] {
                        assert(expanded@.contains(x));
                    } else if x == expanded@[1] {
                        assert(expanded@.contains(x));
                    } else {
                        assert(x == expanded@[2]);
                        assert(expanded@.contains(x));
                    }
                }
            }
        }
        r
    } else {
        let sorted = sorted_unique(&expanded);
        proof {
            assert forall|k: int| 0 <= k < sorted@.len() - 1 implies sorted@[k] < 255 by {
                assert(sorted@[k] < sorted@[k + 1]);
            }
        }
        let ranges = crate::dfa::Dfa::bytes_to_ranges(sorted.as_slice());
        proof {
            lemma_run_count_of_runs(ranges@);
        }
        if ranges.len() <= 3 {
            proof {
                assert forall|x: u8| pf_byte(DfaPrefilter::CharClassRanges(ranges), x) == case_closure_has(bytes@, case_insensitive, x) by {
                    lemma_in_expand(ranges@, x);
                    assert(expanded@.contains(x) == case_closure_has(bytes@, case_insensitive, x));
                }
            }
            DfaPrefilter::CharClassRanges(ranges)
        } else {
            proof {
                assert forall|x: u8| pf_byte(DfaPrefilter::ManyBytes(sorted), x) == case_closure_has(bytes@, case_insensitive, x) by {
                    assert(expanded@.contains(x) == case_closure_has(bytes@, case_insensitive, x));
                }
            }
            DfaPrefilter::ManyBytes(sorted)
        }
    }
}

} // verus!

verus! {

/// Number of entries of `v` that are `false`.
pub open spec fn count_false(v: Seq<bool>) -> nat
    decreases v.len(),
{
    if v.len() == 0 {
        0
    } else {
        count_false(v.drop_last()) + if v.last() {
            0nat
        } else {
            1nat
        }
    }
}

pub proof fn lemma_count_false_mark(v: Seq<bool>, i: int)
    requires
        0 <= i < v.len(),
        !v[i],
    ensures
        count_false(v.update(i, true)) + 1 == count_false(v),
    decreases v.len(),
{
    if i == v.len() - 1 {
        assert(v.update(i, true).drop_last() =~= v.drop_last());
    } else {
        lemma_count_false_mark(v.drop_last(), i);
        assert(v.update(i, true).drop_last() =~= v.drop_last().update(i, true));
    }
}

fn new_visited(n: usize) -> (v: Vec<bool>)
    ensures
        v@.len() == n,
        forall|i: int| 0 <= i < n ==> !#[trigger] v@[i],
{
    let mut v: Vec<bool> = Vec::new();
    let mut i: usize = 0;
    while i < n
        invariant
            0 <= i <= n,
            v@.len() == i,
            forall|k: int| 0 <= k < i ==> !#[trigger] v@[k],
        decreases n - i,
    {
        v.push(false);
        i = i + 1;
    }
    v
}

/// Appends `b` unless it is already present.
fn push_if_absent(v: &mut Vec<u8>, b: u8)
    ensures
        final(v)@ == if old(v)@.contains(b) {
            old(v)@
        } else {
            old(v)@.push(b)
        },
{
    if !contains_byte(v, b) {
        v.push(b);
    }
}

/// Calls `char::from_u32`: the character with code `code`, or `None` when
/// `code` is not a Unicode scalar value.
#[verifier::external_body]
fn char_from_u32(code: u32) -> (r: Option<char>)
    ensures
        match r {
            Some(c) => is_scalar(code) && c as u32 == code,
            None => !is_scalar(code),
        },
{
    char::from_u32(code)
}

/// Appending each byte of a sequence that is not present yet.
pub open spec fn add_step() -> spec_fn(Seq<u8>, u8) -> Seq<u8> {
    |w: Seq<u8>, b: u8| add_absent(w, b)
}

/// `v` with each byte of `s` appended unless already present.
pub open spec fn add_all(v: Seq<u8>, s: Seq<u8>) -> Seq<u8> {
    fold_bytes(v, s, add_step())
}

/// The leading byte recorded for code point `code`: that of its UTF-8
/// encoding, or that of `dflt` when `code` is not a scalar value.
pub open spec fn lead_byte(code: u32, dflt: char) -> u8 {
    if is_scalar(code) {
        encode_scalar(code)[0]
    } else {
        encode_scalar(dflt as u32)[0]
    }
}

/// The sampling step over `lo..=hi`: the width of the range, within `1..=16`.
pub open spec fn lead_step(lo: u32, hi: u32) -> u32 {
    if hi - lo < 1 {
        1
    } else if hi - lo > 16 {
        16
    } else {
        (hi - lo) as u32
    }
}

/// `v` with the leading bytes of the code points `code`, `code + step`, ...
/// up to `end` appended, each unless already present.
pub open spec fn lead_fold(v: Seq<u8>, code: int, end: int, step: int, dflt: char) -> Seq<u8>
    decreases (if code > end {
        0
    } else {
        end + 1 - code
    }),
{
    if code > end || step <= 0 {
        v
    } else {
        lead_fold(add_absent(v, lead_byte(code as u32, dflt)), code + step, end, step, dflt)
    }
}

/// The leading bytes sampled from the characters `lo..=hi`.
pub open spec fn lead_bytes_of(v: Seq<u8>, lo: char, hi: char) -> Seq<u8> {
    lead_fold(v, lo as u32 as int, hi as u32 as int, lead_step(lo as u32, hi as u32) as int, lo)
}

/// A class's ASCII characters, in order, repeats kept.
pub open spec fn ascii_step() -> spec_fn(Seq<u8>, char) -> Seq<u8> {
    |w: Seq<u8>, c: char|
        if (c as u32) < 128 {
            w.push((c as u32) as u8)
        } else {
            w
        }
}

/// A class character's leading byte, unless present.
pub open spec fn first_step() -> spec_fn(Seq<u8>, char) -> Seq<u8> {
    |w: Seq<u8>, c: char| add_absent(w, encode_scalar(c as u32)[0])
}

/// A range's bytes (ASCII range) or sampled leading bytes (otherwise).
pub open spec fn range_step() -> spec_fn(Seq<u8>, (char, char)) -> Seq<u8> {
    |w: Seq<u8>, r: (char, char)|
        if (r.0 as u32) < 128 && (r.1 as u32) < 128 {
            if (r.0 as u32) <= (r.1 as u32) {
                add_all(w, range_bytes(((r.0 as u32) as u8, (r.1 as u32) as u8)))
            } else {
                w
            }
        } else if (r.0 as u32) <= (r.1 as u32) {
            lead_bytes_of(w, r.0, r.1)
        } else {
            w
        }
}

/// A named class's first bytes: ASCII digits; ASCII word characters and
/// leading bytes of some Latin, Cyrillic and Devanagari letters; ASCII and
/// some Unicode spaces; nothing for the negated classes.
pub open spec fn named_step() -> spec_fn(Seq<u8>, NamedClass) -> Seq<u8> {
    |w: Seq<u8>, n: NamedClass|
        match n {
            NamedClass::Digit => add_all(w, range_bytes((48u8, 57u8))),
            NamedClass::Word => lead_bytes_of(
                lead_bytes_of(
                    lead_bytes_of(
                        add_absent(add_all(add_all(add_all(w, range_bytes((97u8, 122u8))), range_bytes((65u8, 90u8))), range_bytes((48u8, 57u8))), 95u8),
                        '\u{00C0}',
                        '\u{024F}',
                    ),
                    '\u{0400}',
                    '\u{04FF}',
                ),
                '\u{0900}',
                '\u{097F}',
            ),
            NamedClass::Whitespace => lead_bytes_of(
                lead_bytes_of(
                    lead_bytes_of(add_absent(add_absent(add_absent(add_absent(w, 32u8), 9u8), 10u8), 13u8), '\u{0085}', '\u{0085}'),
                    '\u{00A0}',
                    '\u{00A0}',
                ),
                '\u{2000}',
                '\u{200A}',
            ),
            _ => w,
        }
}

/// The candidate first bytes of a (non-negated) class.
pub open spec fn class_first_bytes(class: CharClass) -> Seq<u8> {
    let s1 = fold_bytes(Seq::empty(), class.chars@, ascii_step());
    let s2 = fold_bytes(s1, class.chars@, first_step());
    let s3 = fold_bytes(s2, class.ranges@, range_step());
    fold_bytes(s3, class.named@, named_step())
}

/// The first byte of the UTF-8 encoding of `c`.
pub fn first_utf8_byte(c: char) -> (r: u8)
    ensures
        r == encode_scalar(c as u32)[0],
{
    let v = c as u32;
    proof {
        char_is_scalar(c);
    }
    if v <= 0x7F {
        (v & 0x7F) as u8
    } else if v <= 0x7FF {
        0xC0 | ((v >> 6) & 0x1F) as u8
    } else if v <= 0xFFFF {
        0xE0 | ((v >> 12) & 0x0F) as u8
    } else {
        0xF0 | ((v >> 18) & 0x7) as u8
    }
}

/// Adds the UTF-8 leading bytes of characters sampled from `start..=end`.
fn add_utf8_leading_bytes(start: char, end: char, bytes: &mut Vec<u8>)
    requires
        start as u32 <= end as u32,
    ensures
        final(bytes)@ == lead_bytes_of(old(bytes)@, start, end),
{
    let start_u32 = start as u32;
    let end_u32 = end as u32;
    proof {
        char_is_scalar(start);
        char_is_scalar(end);
    }
    let diff: u32 = end_u32 - start_u32;
    let step: u32 = if diff < 1 {
        1
    } else if diff > 16 {
        16
    } else {
        diff
    };
    assert(step == lead_step(start_u32, end_u32));
    let mut code: u32 = start_u32;
    while code <= end_u32
        invariant
            1 <= step <= 16,
            code <= 0x110010,
            end_u32 <= 0x10FFFF,
            start_u32 <= 0x10FFFF,
            start_u32 == start as u32,
            end_u32 == end as u32,
            step == lead_step(start_u32, end_u32),
            lead_bytes_of(old(bytes)@, start, end) == lead_fold(bytes@, code as int, end_u32 as int, step as int, start),
        ensures
            code > end_u32,
            lead_bytes_of(old(bytes)@, start, end) == lead_fold(bytes@, code as int, end_u32 as int, step as int, start),
        decreases 0x110010 - code,
    {
        let ch = match char_from_u32(code) {
            Some(c) => c,
            None => start,
        };
        let first_byte = first_utf8_byte(ch);
        assert(first_byte == lead_byte(code, start));
        push_if_absent(bytes, first_byte);
        code = code.saturating_add(step);
        if code > end_u32 && code > start_u32 + step {
            break;
        }
    }
}

/// A sequence of `n` unmarked flags.
/// The character sequences of a list of strings.
pub open spec fn text_views(t: Seq<String>) -> Seq<Seq<char>> {
    t.map_values(|s: String| s@)
}

pub open spec fn fresh(n: nat) -> Seq<bool> {
    Seq::new(n, |i: int| false)
}

/// The first byte of the text matched from `cur`, when only one is
/// possible: found by following epsilon states with a single target and the
/// successor of capture states through unvisited states, it is the one
/// candidate first byte of a (non-negated) class, or a literal's first byte.
pub open spec fn first_byte_walk(nfa: Nfa, texts: Seq<Seq<char>>, cur: int, visited: Seq<bool>) -> Option<u8>
    decreases count_false(visited),
{
    if cur < 0 || cur >= nfa.states@.len() || visited.len() != nfa.states@.len() || visited[cur] {
        None
    } else {
        let v2 = visited.update(cur, true);
        proof {
            lemma_count_false_mark(visited, cur);
        }
        match nfa.states@[cur] {
            State::Epsilon { targets } => if targets@.len() == 1 {
                first_byte_walk(nfa, texts, targets@[0] as int, v2)
            } else {
                None
            },
            State::CaptureStart { next, .. } => first_byte_walk(nfa, texts, next as int, v2),
            State::CaptureEnd { next, .. } => first_byte_walk(nfa, texts, next as int, v2),
            State::Char { class, .. } => if !class.negated && class_first_bytes(class).len() == 1 {
                Some(class_first_bytes(class)[0])
            } else {
                None
            },
            State::FuzzyLiteral { pattern_index, .. } => if pattern_index < texts.len() && encode_utf8(
                texts[pattern_index as int],
            ).len() > 0 {
                Some(encode_utf8(texts[pattern_index as int])[0])
            } else {
                None
            },
            _ => None,
        }
    }
}

/// The first byte of the text matched from NFA state `start`, when it is known.
fn get_first_byte(nfa: &Nfa, start: usize, literal_texts: &Vec<String>) -> (r: Option<u8>)
    requires
        nfa.wf(),
    ensures
        r == first_byte_walk(*nfa, text_views(literal_texts@), start as int, fresh(nfa.states@.len())),
{
    let n = nfa.states.len();
    let mut visited = new_visited(n);
    let mut current = start;
    assert(visited@ =~= fresh(nfa.states@.len()));
    loop
        invariant
            nfa.wf(),
            n == nfa.states@.len(),
            visited@.len() == n,
            first_byte_walk(*nfa, text_views(literal_texts@), start as int, fresh(nfa.states@.len())) == first_byte_walk(
                *nfa,
                text_views(literal_texts@),
                current as int,
                visited@,
            ),
        decreases count_false(visited@),
    {
        if current >= n || visited[current] {
            return None;
        }
        proof {
            lemma_count_false_mark(visited@, current as int);
        }
        visited.set(current, true);
        assert(crate::nfa::state_targets_in(nfa.states@[current as int], nfa.states@.len()));
        match &nfa.states[current] {
            State::Epsilon { targets } => {
                if targets.len() == 1 {
                    current = targets[0];
                } else {
                    return None;
                }
            },
            State::CaptureStart { next, .. } => {
                current = *next;
            },
            State::CaptureEnd { next, .. } => {
                current = *next;
            },
            State::Char { class, .. } => {
                if !class.negated {
                    let fb = class_first_bytes_of(class);
                    if fb.len() == 1 {
                        return Some(fb[0]);
                    }
                }
                return None;
            },
            State::FuzzyLiteral { pattern_index, .. } => {
                if *pattern_index < literal_texts.len() {
                    let text = literal_texts[*pattern_index].as_str().as_bytes();
                    if text.len() > 0 {
                        return Some(text[0]);
                    }
                }
                return None;
            },
            _ => {
                return None;
            },
        }
    }
}

/// Every branch has a known first byte.
pub open spec fn branches_known(nfa: Nfa, texts: Seq<Seq<char>>, branches: Seq<usize>) -> bool {
    forall|j: int| 0 <= j < branches.len() ==> (first_byte_walk(nfa, texts, #[trigger] branches[j] as int, fresh(nfa.states@.len())) is Some)
}

/// A branch's first byte, unless already present.
pub open spec fn collect_step(nfa: Nfa, texts: Seq<Seq<char>>) -> spec_fn(Seq<u8>, usize) -> Seq<u8> {
    |w: Seq<u8>, b: usize|
        match first_byte_walk(nfa, texts, b as int, fresh(nfa.states@.len())) {
            Some(x) => add_absent(w, x),
            None => w,
        }
}

/// The distinct first bytes of the branches of a split.
fn collect_first_bytes_from_branches(nfa: &Nfa, branches: &Vec<usize>, literal_texts: &Vec<String>) -> (r: Vec<u8>)
    requires
        nfa.wf(),
    ensures
        branches_known(*nfa, text_views(literal_texts@), branches@) ==> r@ == fold_bytes(
            Seq::empty(),
            branches@,
            collect_step(*nfa, text_views(literal_texts@)),
        ),
        !branches_known(*nfa, text_views(literal_texts@), branches@) ==> r@.len() == 0,
        no_dups(r@),
        r@.len() <= branches@.len(),
{
    let mut first_bytes: Vec<u8> = Vec::new();
    let mut i: usize = 0;
    while i < branches.len()
        invariant
            nfa.wf(),
            0 <= i <= branches@.len(),
            no_dups(first_bytes@),
            first_bytes@.len() <= i,
            first_bytes@ == fold_bytes(Seq::empty(), branches@.take(i as int), collect_step(*nfa, text_views(literal_texts@))),
            forall|j: int| 0 <= j < i ==> (first_byte_walk(*nfa, text_views(literal_texts@), #[trigger] branches@[j] as int, fresh(nfa.states@.len())) is Some),
        decreases branches@.len() - i,
    {
        proof {
            lemma_fold_step(Seq::<u8>::empty(), branches@, collect_step(*nfa, text_views(literal_texts@)), i as int);
        }
        match get_first_byte(nfa, branches[i], literal_texts) {
            Some(byte) => {
                push_unique(&mut first_bytes, byte);
            },
            None => {
                return Vec::new();
            },
        }
        i = i + 1;
    }
    assert(branches@.take(branches@.len() as int) =~= branches@);
    first_bytes
}

/// The summed widths of `rs`: one plus the distance from start to end
/// (zero for a reversed range) for each.
pub open spec fn ranges_width(rs: Seq<(char, char)>) -> int
    decreases rs.len(),
{
    if rs.len() == 0 {
        0
    } else {
        let r = rs.last();
        ranges_width(rs.drop_last()) + (if (r.1 as u32) >= (r.0 as u32) {
            (r.1 as u32) - (r.0 as u32)
        } else {
            0
        }) + 1
    }
}

/// An estimate of how many first bytes a class admits: its characters, the
/// widths of its ranges, and ten for each named class.
pub open spec fn breadth(class: CharClass) -> int {
    class.chars@.len() + ranges_width(class.ranges@) + 10 * class.named@.len()
}

pub open spec fn sat(x: int) -> int {
    if x > usize::MAX {
        usize::MAX as int
    } else {
        x
    }
}

/// [`breadth`], saturated at `usize::MAX`.
fn class_breadth(class: &CharClass) -> (r: usize)
    ensures
        r == sat(breadth(*class)),
{
    let mut count: usize = class.chars.len();
    let mut i: usize = 0;
    while i < class.ranges.len()
        invariant
            0 <= i <= class.ranges@.len(),
            count == sat(class.chars@.len() + ranges_width(class.ranges@.take(i as int))),
            ranges_width(class.ranges@.take(i as int)) >= 0,
        decreases class.ranges@.len() - i,
    {
        assert(class.ranges@.take(i + 1).drop_last() =~= class.ranges@.take(i as int));
        let (lo, hi) = class.ranges[i];
        let width = (hi as u32 as usize).saturating_sub(lo as u32 as usize);
        count = count.saturating_add(width.saturating_add(1));
        i = i + 1;
    }
    assert(class.ranges@.take(class.ranges@.len() as int) =~= class.ranges@);
    let mut j: usize = 0;
    while j < class.named.len()
        invariant
            0 <= j <= class.named@.len(),
            ranges_width(class.ranges@) >= 0,
            count == sat(class.chars@.len() + ranges_width(class.ranges@) + 10 * j),
        decreases class.named@.len() - j,
    {
        count = count.saturating_add(10);
        j = j + 1;
    }
    count
}

/// State `x` consumes a character of a broad class.
pub open spec fn is_broad_char(nfa: Nfa, x: int) -> bool {
    0 <= x < nfa.states@.len() && match nfa.states@[x] {
        State::Char { class, .. } => breadth(class) > 10,
        _ => false,
    }
}

/// A broad character state is reached from `x` by at most `fuel - 1` steps
/// through epsilon states.
pub open spec fn broad_within(nfa: Nfa, x: int, fuel: nat) -> bool
    decreases fuel,
{
    fuel > 0 && 0 <= x < nfa.states@.len() && (is_broad_char(nfa, x) || match nfa.states@[x] {
        State::Epsilon { targets } => exists|k: int|
            0 <= k < targets@.len() && broad_within(nfa, targets@[k] as int, (fuel - 1) as nat),
        _ => false,
    })
}

/// A broad character state is reached from `x` through epsilon states.
pub open spec fn broad_reachable(nfa: Nfa, x: int) -> bool {
    exists|fuel: nat| broad_within(nfa, x, fuel)
}

/// The states marked in `f` and not in `o` are not broad character states,
/// and the targets of the epsilon states among them are marked in `f`.
pub open spec fn closed_delta(nfa: Nfa, o: Seq<bool>, f: Seq<bool>) -> bool {
    forall|x: int|
        0 <= x < nfa.states@.len() && #[trigger] f[x] && !o[x] ==> !is_broad_char(nfa, x) && match nfa.states@[x] {
            State::Epsilon { targets } => forall|k: int| 0 <= k < targets@.len() ==> f[#[trigger] targets@[k] as int],
            _ => true,
        }
}

pub open spec fn grows(o: Seq<bool>, f: Seq<bool>) -> bool {
    o.len() == f.len() && forall|x: int| 0 <= x < o.len() && #[trigger] o[x] ==> f[x]
}

/// From a set closed as in [`closed_delta`] no broad character state is reachable.
proof fn lemma_closed_not_broad(nfa: Nfa, f: Seq<bool>, x: int, fuel: nat)
    requires
        nfa.wf(),
        f.len() == nfa.states@.len(),
        closed_delta(nfa, Seq::new(f.len(), |i: int| false), f),
        0 <= x < f.len(),
        f[x],
    ensures
        !broad_within(nfa, x, fuel),
    decreases fuel,
{
    let o = Seq::new(f.len(), |i: int| false);
    assert(!o[x]);
    if fuel > 0 {
        match nfa.states@[x] {
            State::Epsilon { targets } => {
                assert(crate::nfa::state_targets_in(nfa.states@[x], nfa.states@.len()));
                assert forall|k: int| 0 <= k < targets@.len() implies !broad_within(nfa, targets@[k] as int, (fuel - 1) as nat) by {
                    assert(f[targets@[k] as int]);
                    lemma_closed_not_broad(nfa, f, targets@[k] as int, (fuel - 1) as nat);
                }
            },
            _ => {},
        }
    }
}

/// Whether the first character-consuming state reached from `cur` by the
/// walk of [`nfa_starts_with_broad_char_class`] (unvisited states only) is broad.
pub open spec fn broad_walk(nfa: Nfa, cur: int, visited: Seq<bool>) -> bool
    decreases count_false(visited),
{
    if cur < 0 || cur >= nfa.states@.len() || visited.len() != nfa.states@.len() || visited[cur] {
        false
    } else {
        let v2 = visited.update(cur, true);
        proof {
            lemma_count_false_mark(visited, cur);
        }
        match nfa.states@[cur] {
            State::Epsilon { targets } => if targets@.len() == 1 {
                broad_walk(nfa, targets@[0] as int, v2)
            } else {
                false
            },
            State::Anchor { next, .. } => broad_walk(nfa, next as int, v2),
            State::CaptureStart { next, .. } => broad_walk(nfa, next as int, v2),
            State::CaptureEnd { next, .. } => broad_walk(nfa, next as int, v2),
            State::ResetMatchStart { next } => broad_walk(nfa, next as int, v2),
            State::Char { class, .. } => breadth(class) > 10,
            State::Split { branches } => exists|k: int| 0 <= k < branches@.len() && broad_reachable(nfa, branches@[k] as int),
            _ => false,
        }
    }
}

/// Whether the first character-consuming state reached from the start is a
/// broad character class (more than about ten possible first bytes).
fn nfa_starts_with_broad_char_class(nfa: &Nfa) -> (r: bool)
    requires
        nfa.wf(),
    ensures
        r == broad_walk(*nfa, nfa.start as int, fresh(nfa.states@.len())),
{
    let n = nfa.states.len();
    let mut visited = new_visited(n);
    let mut current = nfa.start;
    assert(visited@ =~= fresh(nfa.states@.len()));
    loop
        invariant
            nfa.wf(),
            n == nfa.states@.len(),
            visited@.len() == n,
            current < n,
            broad_walk(*nfa, nfa.start as int, fresh(nfa.states@.len())) == broad_walk(*nfa, current as int, visited@),
        decreases count_false(visited@),
    {
        if visited[current] {
            return false;
        }
        proof {
            lemma_count_false_mark(visited@, current as int);
        }
        let ghost pre = visited@;
        visited.set(current, true);
        assert(crate::nfa::state_targets_in(nfa.states@[current as int], nfa.states@.len()));
        match &nfa.states[current] {
            State::Epsilon { targets } => {
                if targets.len() == 1 {
                    current = targets[0];
                } else {
                    return false;
                }
            },
            State::Anchor { next, .. } => {
                current = *next;
            },
            State::CaptureStart { next, .. } => {
                current = *next;
            },
            State::CaptureEnd { next, .. } => {
                current = *next;
            },
            State::ResetMatchStart { next } => {
                current = *next;
            },
            State::Char { class, .. } => {
                return class_breadth(class) > 10;
            },
            State::Split { branches } => {
                let ghost bs = branches@;
                assert(broad_walk(*nfa, current as int, pre) == exists|k: int|
                    0 <= k < bs.len() && broad_reachable(*nfa, #[trigger] bs[k] as int));
                let mut i: usize = 0;
                while i < branches.len()
                    invariant
                        nfa.wf(),
                        n == nfa.states@.len(),
                        0 <= i <= branches@.len(),
                        bs == branches@,
                        forall|k: int| 0 <= k < bs.len() ==> bs[k] < n,
                        forall|k: int| 0 <= k < i ==> !broad_reachable(*nfa, #[trigger] bs[k] as int),
                        broad_walk(*nfa, nfa.start as int, fresh(nfa.states@.len())) == exists|k: int|
                            0 <= k < bs.len() && broad_reachable(*nfa, #[trigger] bs[k] as int),
                    decreases branches@.len() - i,
                {
                    let mut fresh = new_visited(n);
                    let ghost o = fresh@;
                    assert(o =~= Seq::new(n as nat, |q: int| false));
                    if nfa_starts_with_broad_char_class_inner(nfa, branches[i], &mut fresh) {
                        assert(broad_reachable(*nfa, bs[i as int] as int));
                        return true;
                    }
                    proof {
                        assert forall|fuel: nat| !broad_within(*nfa, bs[i as int] as int, fuel) by {
                            lemma_closed_not_broad(*nfa, fresh@, bs[i as int] as int, fuel);
                        }
                    }
                    i = i + 1;
                }
                return false;
            },
            _ => {
                return false;
            },
        }
    }
}

fn nfa_starts_with_broad_char_class_inner(nfa: &Nfa, state_id: usize, visited: &mut Vec<bool>) -> (r: bool)
    requires
        nfa.wf(),
        old(visited)@.len() == nfa.states@.len(),
    ensures
        final(visited)@.len() == nfa.states@.len(),
        count_false(final(visited)@) <= count_false(old(visited)@),
        grows(old(visited)@, final(visited)@),
        r ==> broad_reachable(*nfa, state_id as int),
        !r ==> closed_delta(*nfa, old(visited)@, final(visited)@),
        !r && state_id < nfa.states@.len() ==> final(visited)@[state_id as int],
    decreases count_false(old(visited)@),
{
    if state_id >= visited.len() || visited[state_id] {
        return false;
    }
    proof {
        lemma_count_false_mark(visited@, state_id as int);
    }
    let ghost o = visited@;
    visited.set(state_id, true);
    let ghost v1 = visited@;
    let ghost marked = count_false(visited@);
    assert(crate::nfa::state_targets_in(nfa.states@[state_id as int], nfa.states@.len()));
    match &nfa.states[state_id] {
        State::Epsilon { targets } => {
            let ghost ts = targets@;
            let mut i: usize = 0;
            while i < targets.len()
                invariant
                    nfa.wf(),
                    0 <= i <= targets@.len(),
                    ts == targets@,
                    nfa.states@[state_id as int] == (State::Epsilon { targets: *targets }),
                    state_id < nfa.states@.len(),
                    forall|k: int| 0 <= k < ts.len() ==> ts[k] < nfa.states@.len(),
                    visited@.len() == nfa.states@.len(),
                    count_false(visited@) <= marked,
                    marked + 1 == count_false(o),
                    o == old(visited)@,
                    grows(v1, visited@),
                    grows(o, visited@),
                    v1[state_id as int],
                    v1 == o.update(state_id as int, true),
                    closed_delta(*nfa, v1, visited@),
                    forall|k: int| 0 <= k < i ==> visited@[#[trigger] ts[k] as int],
                decreases targets@.len() - i,
            {
                let ghost before = visited@;
                let found = nfa_starts_with_broad_char_class_inner(nfa, targets[i], visited);
                proof {
                    assert(grows(before, visited@));
                    assert(count_false(visited@) <= count_false(before));
                    assert forall|x: int| 0 <= x < o.len() && #[trigger] o[x] implies visited@[x] by {
                        assert(before[x]);
                    }
                    assert forall|x: int| 0 <= x < v1.len() && #[trigger] v1[x] implies visited@[x] by {
                        assert(before[x]);
                    }
                }
                if found {
                    proof {
                        let t = ts[i as int] as int;
                        let fuel = choose|fuel: nat| broad_within(*nfa, t, fuel);
                        assert(broad_within(*nfa, t, fuel));
                        assert(targets@[i as int] as int == t);
                        assert(exists|k: int| 0 <= k < targets@.len() && broad_within(*nfa, targets@[k] as int, fuel));
                        let f1: nat = fuel + 1;
                        assert((f1 - 1) as nat == fuel);
                        assert(nfa.states@[state_id as int] == (State::Epsilon { targets: *targets }));
                        assert(broad_within(*nfa, targets@[i as int] as int, (f1 - 1) as nat));
                        assert(exists|k: int|
                            0 <= k < targets@.len() && #[trigger] broad_within(*nfa, targets@[k] as int, (f1 - 1) as nat));
                        let x = state_id as int;
                        assert(0 <= x < nfa.states@.len());
                        assert(nfa.states@[x] is Epsilon);
                        let tg = nfa.states@[x]->targets;
                        assert(tg@ == targets@);
                        assert(broad_within(*nfa, tg@[i as int] as int, (f1 - 1) as nat));
                        assert(match nfa.states@[x] {
                            State::Epsilon { targets } => exists|k: int|
                                0 <= k < targets@.len() && broad_within(*nfa, targets@[k] as int, (f1 - 1) as nat),
                            _ => false,
                        });
                        assert(broad_within(*nfa, x, f1));
                    }
                    return true;
                }
                proof {
                    assert forall|x: int|
                        0 <= x < nfa.states@.len() && #[trigger] visited@[x] && !v1[x] implies !is_broad_char(*nfa, x)
                        && match nfa.states@[x] {
                        State::Epsilon { targets } => forall|k: int| 0 <= k < targets@.len() ==> visited@[#[trigger] targets@[k] as int],
                        _ => true,
                    } by {
                        assert(crate::nfa::state_targets_in(nfa.states@[x], nfa.states@.len()));
                        if before[x] {
                            match nfa.states@[x] {
                                State::Epsilon { targets } => {
                                    assert forall|k: int| 0 <= k < targets@.len() implies visited@[#[trigger] targets@[k] as int] by {
                                        assert(before[targets@[k] as int]);
                                    }
                                },
                                _ => {},
                            }
                        }
                    }
                    assert forall|k: int| 0 <= k < i + 1 implies visited@[#[trigger] ts[k] as int] by {
                        if k < i {
                            assert(before[ts[k] as int]);
                        }
                    }
                }
                i = i + 1;
            }
            proof {
                assert forall|x: int|
                    0 <= x < nfa.states@.len() && #[trigger] visited@[x] && !o[x] implies !is_broad_char(*nfa, x) && match nfa.states@[x] {
                    State::Epsilon { targets } => forall|k: int| 0 <= k < targets@.len() ==> visited@[#[trigger] targets@[k] as int],
                    _ => true,
                } by {
                    if x != state_id as int {
                        assert(!v1[x]);
                    }
                }
            }
            false
        },
        State::Char { class, .. } => {
            let r = class_breadth(class) > 10;
            proof {
                if r {
                    assert(broad_within(*nfa, state_id as int, 1));
                }
            }
            r
        },
        _ => false,
    }
}

} // verus!

verus! {

/// Adds each byte of `lo..=hi` that is not present yet.
fn push_byte_range(v: &mut Vec<u8>, lo: u8, hi: u8)
    requires
        lo <= hi,
    ensures
        final(v)@ == add_all(old(v)@, range_bytes((lo, hi))),
{
    let ghost rb = range_bytes((lo, hi));
    let mut b: u8 = lo;
    loop
        invariant_except_break
            v@ == add_all(old(v)@, rb.take(b - lo)),
        invariant
            lo <= b <= hi,
            rb == range_bytes((lo, hi)),
        ensures
            v@ == add_all(old(v)@, rb),
        decreases hi - b,
    {
        proof {
            lemma_fold_step(old(v)@, rb, add_step(), b - lo);
        }
        push_if_absent(v, b);
        if b == hi {
            assert(rb.take(b - lo + 1) =~= rb);
            break;
        }
        b = b + 1;
    }
}

/// The candidate first bytes of a class.
fn class_first_bytes_of(class: &CharClass) -> (r: Vec<u8>)
    ensures
        r@ == class_first_bytes(*class),
{
    let mut first_bytes: Vec<u8> = Vec::new();
    let ghost s0 = first_bytes@;
    let mut i: usize = 0;
    while i < class.chars.len()
        invariant
            0 <= i <= class.chars@.len(),
            first_bytes@ == fold_bytes(Seq::empty(), class.chars@.take(i as int), ascii_step()),
        decreases class.chars@.len() - i,
    {
        proof {
            lemma_fold_step(Seq::<u8>::empty(), class.chars@, ascii_step(), i as int);
        }
        let ch = class.chars[i];
        if (ch as u32) < 128 {
            first_bytes.push(ch as u32 as u8);
        }
        i = i + 1;
    }
    assert(class.chars@.take(class.chars@.len() as int) =~= class.chars@);
    let ghost s1 = first_bytes@;
    let mut i: usize = 0;
    while i < class.chars.len()
        invariant
            0 <= i <= class.chars@.len(),
            first_bytes@ == fold_bytes(s1, class.chars@.take(i as int), first_step()),
        decreases class.chars@.len() - i,
    {
        proof {
            lemma_fold_step(s1, class.chars@, first_step(), i as int);
        }
        push_if_absent(&mut first_bytes, first_utf8_byte(class.chars[i]));
        i = i + 1;
    }
    let ghost s2 = first_bytes@;
    let mut i: usize = 0;
    while i < class.ranges.len()
        invariant
            0 <= i <= class.ranges@.len(),
            first_bytes@ == fold_bytes(s2, class.ranges@.take(i as int), range_step()),
        decreases class.ranges@.len() - i,
    {
        proof {
            lemma_fold_step(s2, class.ranges@, range_step(), i as int);
        }
        let (lo, hi) = class.ranges[i];
        let lu = lo as u32;
        let hu = hi as u32;
        assert(class.ranges@[i as int] == (lo, hi));
        if lu < 128 && hu < 128 {
            if lu <= hu {
                assert(lu as u8 == lu) by (bit_vector)
                    requires
                        lu < 128,
                ;
                assert(hu as u8 == hu) by (bit_vector)
                    requires
                        hu < 128,
                ;
                push_byte_range(&mut first_bytes, lu as u8, hu as u8);
            }
        } else if lu <= hu {
            add_utf8_leading_bytes(lo, hi, &mut first_bytes);
        }
        i = i + 1;
    }
    assert(class.ranges@.take(class.ranges@.len() as int) =~= class.ranges@);
    let ghost s3 = first_bytes@;
    let mut i: usize = 0;
    while i < class.named.len()
        invariant
            0 <= i <= class.named@.len(),
            first_bytes@ == fold_bytes(s3, class.named@.take(i as int), named_step()),
        decreases class.named@.len() - i,
    {
        proof {
            lemma_fold_step(s3, class.named@, named_step(), i as int);
        }
        match class.named[i] {
            NamedClass::Digit => {
                push_byte_range(&mut first_bytes, 48, 57);
            },
            NamedClass::Word => {
                push_byte_range(&mut first_bytes, 97, 122);
                push_byte_range(&mut first_bytes, 65, 90);
                push_byte_range(&mut first_bytes, 48, 57);
                push_if_absent(&mut first_bytes, 95);
                add_utf8_leading_bytes('\u{00C0}', '\u{024F}', &mut first_bytes);
                add_utf8_leading_bytes('\u{0400}', '\u{04FF}', &mut first_bytes);
                add_utf8_leading_bytes('\u{0900}', '\u{097F}', &mut first_bytes);
            },
            NamedClass::Whitespace => {
                push_if_absent(&mut first_bytes, 32);
                push_if_absent(&mut first_bytes, 9);
                push_if_absent(&mut first_bytes, 10);
                push_if_absent(&mut first_bytes, 13);
                add_utf8_leading_bytes('\u{0085}', '\u{0085}', &mut first_bytes);
                add_utf8_leading_bytes('\u{00A0}', '\u{00A0}', &mut first_bytes);
                add_utf8_leading_bytes('\u{2000}', '\u{200A}', &mut first_bytes);
            },
            _ => {},
        }
        i = i + 1;
    }
    assert(class.named@.take(class.named@.len() as int) =~= class.named@);
    first_bytes
}

/// The first `min(8, len)` bytes of literal `idx`.
pub open spec fn lit_prefix(texts: Seq<Seq<char>>, idx: int) -> Seq<u8> {
    let b = encode_utf8(texts[idx]);
    if b.len() <= 8 {
        b
    } else {
        b.take(8)
    }
}

/// The walk from `cur` through unvisited states that picks the prefilter's
/// material: `(true, bytes)` for a set of first bytes (of a class of at most
/// ten of them, or of the branches of a split), `(false, prefix)` for a
/// literal prefix (one ASCII character, or up to eight bytes of a literal),
/// empty where the walk finds nothing usable.
pub open spec fn prefix_walk(nfa: Nfa, texts: Seq<Seq<char>>, cur: int, visited: Seq<bool>) -> (bool, Seq<u8>)
    decreases count_false(visited),
{
    if cur < 0 || cur >= nfa.states@.len() || visited.len() != nfa.states@.len() || visited[cur] {
        (false, Seq::empty())
    } else {
        let v2 = visited.update(cur, true);
        proof {
            lemma_count_false_mark(visited, cur);
        }
        match nfa.states@[cur] {
            State::Epsilon { targets } => if targets@.len() == 1 {
                prefix_walk(nfa, texts, targets@[0] as int, v2)
            } else {
                (false, Seq::empty())
            },
            State::Anchor { next, .. } => prefix_walk(nfa, texts, next as int, v2),
            State::CaptureStart { next, .. } => prefix_walk(nfa, texts, next as int, v2),
            State::CaptureEnd { next, .. } => prefix_walk(nfa, texts, next as int, v2),
            State::Char { class, .. } => if class.chars@.len() == 1 && class.ranges@.len() == 0 && class.named@.len() == 0
                && !class.negated && (class.chars@[0] as u32) < 128 {
                (false, seq![(class.chars@[0] as u32) as u8])
            } else if !class.negated && 1 <= class_first_bytes(class).len() <= 10 {
                (true, class_first_bytes(class))
            } else {
                (false, Seq::empty())
            },
            State::FuzzyLiteral { pattern_index, .. } => if pattern_index < texts.len() {
                (false, lit_prefix(texts, pattern_index as int))
            } else {
                (false, Seq::empty())
            },
            State::Split { branches } => {
                let fb = fold_bytes(Seq::empty(), branches@, collect_step(nfa, texts));
                if branches_known(nfa, texts, branches@) && fb.len() > 0 {
                    (true, fb)
                } else {
                    (false, Seq::empty())
                }
            },
            _ => (false, Seq::empty()),
        }
    }
}

/// The prefilter chosen for `nfa`: none when the first literal is at most
/// two bytes long and the pattern starts with a broad class; otherwise the
/// multi-byte prefilter of the bytes the walk collects, or from a prefix its
/// first byte (both cases when case-insensitive), a single byte, or the
/// prefix itself.
pub open spec fn prefilter_is(r: DfaPrefilter, nfa: Nfa, texts: Seq<Seq<char>>, ci: bool) -> bool {
    let w = prefix_walk(nfa, texts, nfa.start as int, fresh(nfa.states@.len()));
    let p = w.1;
    if texts.len() > 0 && encode_utf8(texts[0]).len() <= 2 && broad_walk(nfa, nfa.start as int, fresh(nfa.states@.len())) {
        r is Disabled
    } else if w.0 {
        multi_byte_shape(r, p, ci)
    } else if p.len() == 0 {
        r is Disabled
    } else if ci {
        if byte_alpha(p[0]) {
            r == DfaPrefilter::TwoBytes(byte_lower(p[0]), byte_upper(p[0]))
        } else {
            r == DfaPrefilter::SingleByte(p[0])
        }
    } else if p.len() == 1 {
        r == DfaPrefilter::SingleByte(p[0])
    } else {
        r matches DfaPrefilter::Literal(l) && l@ == p
    }
}

/// Chooses the prefilter for an NFA: a literal prefix, or the set of
/// possible first bytes, found by following the NFA from its start.
pub fn extract_prefilter(nfa: &Nfa, literal_texts: &Vec<String>, case_insensitive: bool) -> (r: DfaPrefilter)
    requires
        nfa.wf(),
    ensures
        prefilter_is(r, *nfa, text_views(literal_texts@), case_insensitive),
        pf_wf(r),
        case_insensitive ==> !(r is Literal),
        r matches DfaPrefilter::Literal(l) ==> 2 <= l@.len() <= 8,
{
    let ghost texts = text_views(literal_texts@);
    let ghost gate = texts.len() > 0 && encode_utf8(texts[0]).len() <= 2 && broad_walk(
        *nfa,
        nfa.start as int,
        fresh(nfa.states@.len()),
    );
    if literal_texts.len() > 0 {
        let first = literal_texts[0].as_str();
        let first_len = first.as_bytes().len();
        assert(first@ == texts[0]);
        assert(first_len == encode_utf8(texts[0]).len());
        if first_len <= 2 {
            if nfa_starts_with_broad_char_class(nfa) {
                assert(gate);
                return DfaPrefilter::Disabled;
            }
        }
    }
    assert(!gate);
    let n = nfa.states.len();
    let ghost w = prefix_walk(*nfa, texts, nfa.start as int, fresh(nfa.states@.len()));
    let mut prefix: Vec<u8> = Vec::new();
    let mut visited = new_visited(n);
    let mut current = nfa.start;
    assert(visited@ =~= fresh(nfa.states@.len()));
    loop
        invariant_except_break
            prefix@.len() == 0,
            w == prefix_walk(*nfa, texts, current as int, visited@),
        invariant
            nfa.wf(),
            texts == text_views(literal_texts@),
            n == nfa.states@.len(),
            visited@.len() == n,
            current < n,
            !(texts.len() > 0 && encode_utf8(texts[0]).len() <= 2 && broad_walk(
                *nfa,
                nfa.start as int,
                fresh(nfa.states@.len()),
            )),
            w == prefix_walk(*nfa, texts, nfa.start as int, fresh(nfa.states@.len())),
        ensures
            prefix@.len() <= 8,
            w == (false, prefix@),
        decreases count_false(visited@),
    {
        if visited[current] {
            break;
        }
        proof {
            lemma_count_false_mark(visited@, current as int);
        }
        let ghost pre = visited@;
        visited.set(current, true);
        assert(crate::nfa::state_targets_in(nfa.states@[current as int], nfa.states@.len()));
        match &nfa.states[current] {
            State::Epsilon { targets } => {
                if targets.len() == 1 {
                    current = targets[0];
                } else {
                    break;
                }
            },
            State::Anchor { next, .. } => {
                current = *next;
            },
            State::CaptureStart { next, .. } => {
                current = *next;
            },
            State::CaptureEnd { next, .. } => {
                current = *next;
            },
            State::Char { class, .. } => {
                if class.chars.len() == 1 && class.ranges.len() == 0 && class.named.len() == 0 && !class.negated {
                    let ch = class.chars[0];
                    if (ch as u32) < 128 {
                        prefix.push(ch as u32 as u8);
                        assert(prefix@ =~= seq![(class.chars@[0] as u32) as u8]);
                        break;
                    }
                }
                if !class.negated {
                    let first_bytes = class_first_bytes_of(class);
                    if first_bytes.len() > 0 && first_bytes.len() <= 10 {
                        let r = make_multi_byte_prefilter(first_bytes.as_slice(), case_insensitive);
                        assert(w == prefix_walk(*nfa, texts, current as int, pre));
                        assert(w == (true, first_bytes@));
                        assert(multi_byte_shape(r, first_bytes@, case_insensitive));
                        assert(prefilter_is(r, *nfa, texts, case_insensitive));
                        return r;
                    }
                }
                break;
            },
            State::FuzzyLiteral { pattern_index, .. } => {
                if *pattern_index < literal_texts.len() {
                    let text = literal_texts[*pattern_index].as_str().as_bytes();
                    let ghost tb = text@;
                    let mut i: usize = 0;
                    while i < text.len() && i < 8
                        invariant
                            0 <= i <= 8,
                            i <= tb.len(),
                            tb == text@,
                            prefix@ == tb.take(i as int),
                        decreases 8 - i,
                    {
                        prefix.push(text[i]);
                        i = i + 1;
                        assert(prefix@ =~= tb.take(i as int));
                    }
                    assert(prefix@ =~= lit_prefix(texts, *pattern_index as int));
                }
                break;
            },
            State::Split { branches } => {
                let first_bytes = collect_first_bytes_from_branches(nfa, branches, literal_texts);
                if first_bytes.len() > 0 {
                    let r = make_multi_byte_prefilter(first_bytes.as_slice(), case_insensitive);
                    assert(w == prefix_walk(*nfa, texts, current as int, pre));
                    assert(w == (true, first_bytes@));
                    assert(multi_byte_shape(r, first_bytes@, case_insensitive));
                    assert(prefilter_is(r, *nfa, texts, case_insensitive));
                    return r;
                }
                break;
            },
            _ => {
                break;
            },
        }
    }
    if prefix.len() == 0 {
        return DfaPrefilter::Disabled;
    }
    if case_insensitive {
        let b = prefix[0];
        if (65 <= b && b <= 90) || (97 <= b && b <= 122) {
            let lower: u8 = if 65 <= b && b <= 90 { b + 32 } else { b };
            let upper: u8 = if 97 <= b && b <= 122 { b - 32 } else { b };
            return DfaPrefilter::TwoBytes(lower, upper);
        }
        return DfaPrefilter::SingleByte(b);
    }
    if prefix.len() == 1 {
        return DfaPrefilter::SingleByte(prefix[0]);
    }
    DfaPrefilter::Literal(prefix)
}

} // verus!
