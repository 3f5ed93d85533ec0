//! The pattern of the compact automaton for short approximate literals.
use vstd::prelude::*;
use crate::damlev::{EditLimits, EditMatch};
use crate::text::{str_to_lowercase, decode_text, byte_offset, lemma_offset_strict, spec_char_lowercase};
use crate::damlev::first_of;
use crate::edit_scan::{ScanHit, edit_scan, scan_result, exact_at};
use crate::bitap::{folded_pattern, first_lower, lower_first};

verus! {

/// Longest pattern the compact automaton accepts.
pub const FUZZY_NFA_MAX_LEN: usize = 63;

/// Scores replaced by their places in one common order (equal scores share a
/// place): that of the threshold, and, for each edit count `e` from zero to
/// the budget, that of the score `1 - e / (pattern length + budget)`.
pub struct EditRanks {
    pub threshold: u32,
    pub by_edits: Vec<u32>,
}

/// The place of the score of `e` edits, zero where the table has none.
pub open spec fn edit_rank(by_edits: Seq<u32>, e: int) -> int {
    if 0 <= e < by_edits.len() {
        by_edits[e] as int
    } else {
        0
    }
}

fn edit_rank_lookup(by_edits: &Vec<u32>, e: usize) -> (r: u32)
    ensures
        r as int == edit_rank(by_edits@, e as int),
{
    if e < by_edits.len() {
        by_edits[e]
    } else {
        0
    }
}

/// The text as the automaton reads it: with case folding, each character
/// replaced by the first character of its lowercase mapping.
pub open spec fn read_text(t: Seq<char>, ci: bool) -> Seq<char> {
    if ci {
        Seq::new(t.len(), |i: int| first_lower(t[i]))
    } else {
        t
    }
}

/// With case folding, the automaton reads each text character as the first
/// character of its Unicode lowercase mapping (the character itself when the
/// mapping is empty).
pub proof fn lemma_read_text_unicode_lowercase(t: Seq<char>)
    ensures
        read_text(t, true).len() == t.len(),
        forall|i: int|
            0 <= i < t.len() ==> #[trigger] read_text(t, true)[i] == match first_of(spec_char_lowercase(t[i])) {
                Some(l) => l,
                None => t[i],
            },
{
}

/// `p` occurs at character `i` of `t` once every character of `t` is
/// replaced by the first character of its Unicode lowercase mapping.
pub open spec fn occurs_lowercased(p: Seq<char>, t: Seq<char>, i: int) -> bool {
    &&& 0 <= i
    &&& i + p.len() <= t.len()
    &&& forall|j: int|
        0 <= j < p.len() ==> (match first_of(spec_char_lowercase(#[trigger] t[i + j])) {
            Some(l) => l,
            None => t[i + j],
        }) == p[j]
}

/// An occurrence of `p` in the Unicode-lowercased text at character `i` is
/// an exact occurrence in the text as the automaton reads it.
pub proof fn lemma_lowercase_occurrence(p: Seq<char>, t: Seq<char>, i: int)
    requires
        occurs_lowercased(p, t, i),
    ensures
        exact_at(p, read_text(t, true), i),
{
    lemma_read_text_unicode_lowercase(t);
    let f = read_text(t, true);
    assert forall|j: int| 0 <= j < p.len() implies #[trigger] f.subrange(i, i + p.len())[j] == p[j] by {
        assert(f.subrange(i, i + p.len())[j] == f[i + j]);
        assert(t[i + j] == t[i + j]);
    }
    assert(f.subrange(i, i + p.len()) =~= p);
}

/// The score of `e` edits reaches the threshold.
pub open spec fn score_ok(ranks: EditRanks, e: int) -> bool {
    edit_rank(ranks.by_edits@, e) >= ranks.threshold
}

/// The match over characters `i..j` of `t` with the given counts.
pub open spec fn char_span(t: Seq<char>, i: int, j: int, ins: int, del: int, sub: int) -> EditMatch {
    EditMatch {
        start: byte_offset(t, i) as usize,
        end: byte_offset(t, j) as usize,
        insertions: ins as u8,
        deletions: del as u8,
        substitutions: sub as u8,
        swaps: 0,
    }
}

/// The edit counts, from zero to the budget `max`, whose score reaches
/// the threshold.
pub open spec fn admitted(ranks: EditRanks, max: int) -> Seq<bool> {
    Seq::new((max + 1) as nat, |e: int| score_ok(ranks, e))
}

/// A completed run of the automaton as a match, in byte offsets of `t`.
pub open spec fn run_match(t: Seq<char>, h: ScanHit) -> EditMatch {
    char_span(t, h.start as int, h.end as int, h.insertions as int, h.deletions as int, h.substitutions as int)
}

/// Approximate matcher for a literal of at most [`FUZZY_NFA_MAX_LEN`] characters.
pub struct FuzzyNfa {
    pattern: Vec<char>,
    pattern_len: usize,
    edit_limits: EditLimits,
    case_insensitive: bool,
    first_char: char,
}

impl FuzzyNfa {
    pub closed spec fn spec_pattern(&self) -> Seq<char> {
        self.pattern@
    }

    pub closed spec fn spec_limits(&self) -> EditLimits {
        self.edit_limits
    }

    pub closed spec fn spec_case_insensitive(&self) -> bool {
        self.case_insensitive
    }

    pub closed spec fn spec_first_char(&self) -> char {
        self.first_char
    }

    pub closed spec fn wf(&self) -> bool {
        &&& 1 <= self.pattern@.len() <= FUZZY_NFA_MAX_LEN
        &&& self.pattern_len == self.pattern@.len()
        &&& self.first_char == self.pattern@[0]
    }

    /// The matcher for `pattern` (lowercased first when case-insensitive);
    /// `None` when that is empty or longer than [`FUZZY_NFA_MAX_LEN`].
    pub fn new(pattern: &str, edit_limits: EditLimits, case_insensitive: bool) -> (r: Option<Self>)
        ensures
            r is Some <==> 1 <= folded_pattern(pattern@, case_insensitive).len() <= FUZZY_NFA_MAX_LEN,
            r matches Some(f) ==> {
                &&& f.wf()
                &&& f.spec_pattern() == folded_pattern(pattern@, case_insensitive)
                &&& f.spec_limits() == edit_limits
                &&& f.spec_case_insensitive() == case_insensitive
                &&& f.spec_first_char() == f.spec_pattern()[0]
            },
    {
        let pattern = if case_insensitive {
            let lowered = str_to_lowercase(pattern);
            decode_text(lowered.as_str()).0
        } else {
            decode_text(pattern).0
        };
        let pattern_len = pattern.len();
        if pattern_len == 0 || pattern_len > FUZZY_NFA_MAX_LEN {
            return None;
        }
        let first_char = pattern[0];
        Some(FuzzyNfa { pattern, pattern_len, edit_limits, case_insensitive, first_char })
    }
}


impl FuzzyNfa {
    /// The number of characters of the (folded) pattern.
    pub fn pattern_len(&self) -> (r: usize)
        requires
            self.wf(),
        ensures
            r == self.spec_pattern().len(),
    {
        self.pattern_len
    }

    /// The edit limits the matcher was made with.
    pub fn limits(&self) -> (r: EditLimits)
        ensures
            r == self.spec_limits(),
    {
        self.edit_limits
    }

    /// The first match, reading the text once: the first run of the edit
    /// automaton (see [`edit_scan`]) to complete with a score that reaches
    /// the threshold, reported from where it started to just after the
    /// character where it completed.  An empty text gives the all-deletions
    /// match whenever the budget allows it.
    pub fn find_first(&self, text: &str, ranks: &EditRanks) -> (r: Option<EditMatch>)
        requires
            self.wf(),
        ensures
            text@.len() == 0 ==> (r is Some <==> self.spec_pattern().len() <= self.spec_limits().max_edits),
            text@.len() == 0 ==> (r matches Some(m) ==> m.start == 0 && m.end == 0 && m.insertions == 0
                && m.deletions == self.spec_pattern().len() && m.substitutions == 0 && m.swaps == 0),
            text@.len() > 0 ==> r == match scan_result(
                self.spec_pattern(),
                self.spec_limits().max_edits as int,
                read_text(text@, self.spec_case_insensitive()),
                admitted(*ranks, self.spec_limits().max_edits as int),
                false,
            ) {
                Some(h) => Some(run_match(text@, h)),
                None => None,
            },
            r matches Some(m) ==> m.insertions + m.deletions + m.substitutions <= self.spec_limits().max_edits,
            forall|i: int|
                score_ok(*ranks, 0) && exact_at(self.spec_pattern(), read_text(text@, self.spec_case_insensitive()), i)
                    ==> (r matches Some(m) && m.end <= byte_offset(text@, i + self.spec_pattern().len())),
            forall|i: int|
                self.spec_case_insensitive() && score_ok(*ranks, 0) && #[trigger] occurs_lowercased(self.spec_pattern(), text@, i)
                    ==> r is Some,
    {
        let ghost t = text@;
        let ghost f = read_text(t, self.case_insensitive);
        let max_edits = self.edit_limits.max_edits as usize;
        let m = self.pattern_len;
        let (cs, offs) = decode_text(text);
        let text_len = cs.len();
        let text_chars: Vec<char> = if self.case_insensitive {
            let mut v: Vec<char> = Vec::new();
            let mut i: usize = 0;
            while i < text_len
                invariant
                    cs@ == t,
                    text_len == t.len(),
                    0 <= i <= text_len,
                    v.len() == i,
                    forall|j: int| 0 <= j < i ==> v@[j] == first_lower(t[j]),
                decreases text_len - i,
            {
                v.push(lower_first(cs[i]));
                i = i + 1;
            }
            assert(v@ =~= f);
            proof {
                assert forall|i: int| #[trigger] occurs_lowercased(self.pattern@, t, i) implies exact_at(self.pattern@, f, i) by {
                    lemma_lowercase_occurrence(self.pattern@, t, i);
                }
            }
            v
        } else {
            cs
        };
        if text_len == 0 {
            proof {
                assert forall|i: int| !exact_at(self.pattern@, text_chars@, i) by {}
            }
            if m <= max_edits {
                return Some(EditMatch { start: 0, end: 0, insertions: 0, deletions: m as u8, substitutions: 0, swaps: 0 });
            }
            return None;
        }
        let mut accept: Vec<bool> = Vec::new();
        let mut e: usize = 0;
        while e <= max_edits
            invariant
                max_edits <= 255,
                e <= max_edits + 1,
                accept@.len() == e,
                forall|q: int| 0 <= q < e ==> accept@[q] == score_ok(*ranks, q),
            decreases max_edits + 1 - e,
        {
            accept.push(edit_rank_lookup(&ranks.by_edits, e) >= ranks.threshold);
            e = e + 1;
        }
        proof {
            assert(accept@ =~= admitted(*ranks, max_edits as int));
        }
        match edit_scan(&self.pattern, max_edits, &text_chars, accept.as_slice(), false) {
            Some(h) => {
                proof {
                    assert forall|i: int| score_ok(*ranks, 0) && exact_at(self.pattern@, text_chars@, i) implies byte_offset(
                        t,
                        h.end as int,
                    ) <= byte_offset(t, i + m) by {
                        assert(accept@[0]);
                        if h.end < i + m {
                            lemma_offset_strict(t, h.end as int, i + m);
                        }
                    }
                }
                Some(
                    EditMatch {
                        start: offs[h.start],
                        end: offs[h.end],
                        insertions: h.insertions,
                        deletions: h.deletions,
                        substitutions: h.substitutions,
                        swaps: 0,
                    },
                )
            },
            None => {
                proof {
                    assert forall|i: int| !(score_ok(*ranks, 0) && exact_at(self.pattern@, text_chars@, i)) by {
                        if score_ok(*ranks, 0) {
                            assert(accept@[0]);
                        }
                    }
                }
                None
            },
        }
    }
}

} // verus!
