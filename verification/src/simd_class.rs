//! Byte-level helpers used by the DFA: an ASCII membership table for a
//! character class, a searcher over byte ranges, and a literal searcher.
use vstd::prelude::*;
use crate::nfa::CharClass;
use crate::bytesearch::{find_substring, rfind_substring, occurs_at};

verus! {

/// Membership of each ASCII code in a character class.
pub struct AsciiClassBitmap {
    pub bits: Vec<bool>,
}

impl AsciiClassBitmap {
    pub open spec fn wf(&self) -> bool {
        self.bits@.len() == 128
    }

    /// The table of `class` over the ASCII range.
    pub fn from_hir_class(class: &CharClass) -> (r: Self)
        ensures
            r.wf(),
            forall|b: int| 0 <= b < 128 ==> #[trigger] r.bits@[b] == class.spec_matches(b as char),
    {
        let mut bits: Vec<bool> = Vec::new();
        let mut b: u8 = 0;
        while b < 128
            invariant
                0 <= b <= 128,
                bits@.len() == b,
                forall|i: int| 0 <= i < b ==> #[trigger] bits@[i] == class.spec_matches(i as char),
            decreases 128 - b,
        {
            let m = class.matches(b as char);
            bits.push(m);
            b = b + 1;
        }
        AsciiClassBitmap { bits }
    }

    pub fn contains(&self, b: u8) -> (r: bool)
        requires
            self.wf(),
            b < 128,
        ensures
            r == self.bits@[b as int],
    {
        self.bits[b as usize]
    }
}

/// Searcher for bytes that fall in one of a few inclusive ranges.
pub struct RevSearchRanges {
    pub ranges: Vec<(u8, u8)>,
}

impl RevSearchRanges {
    pub open spec fn spec_matches(&self, b: u8) -> bool {
        exists|i: int| 0 <= i < self.ranges@.len() && (#[trigger] self.ranges@[i]).0 <= b <= self.ranges@[i].1
    }

    pub fn new(ranges: Vec<(u8, u8)>) -> (r: Self)
        ensures
            r.ranges@ == ranges@,
    {
        RevSearchRanges { ranges }
    }

    pub fn matches_byte(&self, b: u8) -> (r: bool)
        ensures
            r == self.spec_matches(b),
    {
        let mut i: usize = 0;
        while i < self.ranges.len()
            invariant
                0 <= i <= self.ranges@.len(),
                forall|j: int| 0 <= j < i ==> !((#[trigger] self.ranges@[j]).0 <= b <= self.ranges@[j].1),
            decreases self.ranges@.len() - i,
        {
            let (lo, hi) = self.ranges[i];
            if lo <= b && b <= hi {
                return true;
            }
            i = i + 1;
        }
        false
    }

    /// Index of the first byte in a range.
    pub fn find_first(&self, bytes: &[u8]) -> (r: Option<usize>)
        ensures
            match r {
                Some(i) => i < bytes@.len() && self.spec_matches(bytes@[i as int]) && forall|j: int|
                    0 <= j < i ==> !self.spec_matches(#[trigger] bytes@[j]),
                None => forall|j: int| 0 <= j < bytes@.len() ==> !self.spec_matches(#[trigger] bytes@[j]),
            },
    {
        let mut i: usize = 0;
        while i < bytes.len()
            invariant
                0 <= i <= bytes@.len(),
                forall|j: int| 0 <= j < i ==> !self.spec_matches(#[trigger] bytes@[j]),
            decreases bytes@.len() - i,
        {
            if self.matches_byte(bytes[i]) {
                return Some(i);
            }
            i = i + 1;
        }
        None
    }

    /// Index of the last byte in a range.
    pub fn find_last(&self, bytes: &[u8]) -> (r: Option<usize>)
        ensures
            match r {
                Some(i) => i < bytes@.len() && self.spec_matches(bytes@[i as int]) && forall|j: int|
                    i < j < bytes@.len() ==> !self.spec_matches(#[trigger] bytes@[j]),
                None => forall|j: int| 0 <= j < bytes@.len() ==> !self.spec_matches(#[trigger] bytes@[j]),
            },
    {
        let mut i: usize = bytes.len();
        while i > 0
            invariant
                0 <= i <= bytes@.len(),
                forall|j: int| i <= j < bytes@.len() ==> !self.spec_matches(#[trigger] bytes@[j]),
            decreases i,
        {
            if self.matches_byte(bytes[i - 1]) {
                return Some(i - 1);
            }
            i = i - 1;
        }
        None
    }
}

/// Searcher for one literal byte string.
pub struct TeddySearch {
    pub needle: Vec<u8>,
}

impl TeddySearch {
    pub fn new(needle: &[u8]) -> (r: Self)
        ensures
            r.needle@ == needle@,
    {
        let mut v: Vec<u8> = Vec::new();
        let mut i: usize = 0;
        while i < needle.len()
            invariant
                0 <= i <= needle@.len(),
                v@ == needle@.subrange(0, i as int),
            decreases needle@.len() - i,
        {
            v.push(needle[i]);
            assert(v@ =~= needle@.subrange(0, i + 1));
            i = i + 1;
        }
        assert(v@ =~= needle@);
        TeddySearch { needle: v }
    }

    /// Index of the first occurrence of the needle.
    pub fn find_first(&self, haystack: &[u8]) -> (r: Option<usize>)
        ensures
            match r {
                Some(i) => occurs_at(haystack@, self.needle@, i as int) && forall|j: int|
                    0 <= j < i ==> !#[trigger] occurs_at(haystack@, self.needle@, j),
                None => forall|j: int| 0 <= j ==> !#[trigger] occurs_at(haystack@, self.needle@, j),
            },
    {
        find_substring(haystack, self.needle.as_slice())
    }

    /// Index of the last occurrence of the needle.
    pub fn find_last(&self, haystack: &[u8]) -> (r: Option<usize>)
        ensures
            match r {
                Some(i) => occurs_at(haystack@, self.needle@, i as int) && forall|j: int|
                    i < j ==> !#[trigger] occurs_at(haystack@, self.needle@, j),
                None => forall|j: int| 0 <= j ==> !#[trigger] occurs_at(haystack@, self.needle@, j),
            },
    {
        rfind_substring(haystack, self.needle.as_slice())
    }
}

} // verus!
