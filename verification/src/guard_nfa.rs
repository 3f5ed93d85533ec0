//! The pattern of the guard-based automaton for approximate literals.
use vstd::prelude::*;
use crate::damlev::{EditLimits, to_lower_char, first_of};
use crate::text::spec_char_lowercase;
use crate::nfa::{is_ascii_char, ascii_lower};
use crate::text::{str_to_lowercase, decode_text, byte_offset, lemma_offset_bounds, lemma_offset_strict};
use crate::edit_scan::{ScanHit, edit_scan, scan_result, exact_at};
use crate::bitap::folded_pattern;

verus! {

/// The lowercase form of a text character as the automaton compares it: the
/// first character of its Unicode lowercase mapping.
pub open spec fn lower_first(c: char) -> char {
    if is_ascii_char(c) {
        ascii_lower(c)
    } else {
        match first_of(spec_char_lowercase(c)) {
            Some(l) => l,
            None => c,
        }
    }
}

/// `p` occurs at character `i` of `t` once every character of `t` is
/// lowercased: ASCII letters by the ASCII mapping, every other character by
/// the first character of its Unicode lowercase mapping.
pub open spec fn occurs_lowercased(p: Seq<char>, t: Seq<char>, i: int) -> bool {
    &&& 0 <= i
    &&& i + p.len() <= t.len()
    &&& forall|j: int|
        0 <= j < p.len() ==> if is_ascii_char(#[trigger] t[i + j]) {
            ascii_lower(t[i + j]) == p[j]
        } else {
            match first_of(spec_char_lowercase(t[i + j])) {
                Some(l) => l == p[j],
                None => t[i + j] == p[j],
            }
        }
}

/// With case folding, the automaton reads every character through its
/// lowercase mapping, so an occurrence of `p` in the lowercased text at `i`
/// is an exact occurrence in the text as read.
pub proof fn lemma_fold_text_lowercases(p: Seq<char>, t: Seq<char>, i: int)
    requires
        occurs_lowercased(p, t, i),
    ensures
        exact_at(p, fold_text(t, true), i),
{
    let f = fold_text(t, true);
    assert forall|j: int| 0 <= j < p.len() implies #[trigger] f.subrange(i, i + p.len())[j] == p[j] by {
        assert(f.subrange(i, i + p.len())[j] == f[i + j]);
        assert(t[i + j] == t[i + j]);
    }
    assert(f.subrange(i, i + p.len()) =~= p);
}

/// The text's characters as the automaton reads them.
pub open spec fn fold_text(s: Seq<char>, ci: bool) -> Seq<char> {
    if ci {
        Seq::new(s.len(), |i: int| lower_first(s[i]))
    } else {
        s
    }
}

/// A match of the guard automaton: byte span, edit counts, and the total
/// edits from which its similarity is computed.
#[derive(Clone, Copy, Debug, PartialEq, Eq)]
pub struct GuardHit {
    pub start: usize,
    pub end: usize,
    pub insertions: u8,
    pub deletions: u8,
    pub substitutions: u8,
    pub edits: usize,
}

/// A completed run of the automaton, in byte offsets of the text whose
/// characters are `raw`.
pub open spec fn hit_bytes(raw: Seq<char>, h: ScanHit) -> GuardHit {
    GuardHit {
        start: byte_offset(raw, h.start as int) as usize,
        end: byte_offset(raw, h.end as int) as usize,
        insertions: h.insertions,
        deletions: h.deletions,
        substitutions: h.substitutions,
        edits: h.edits,
    }
}

/// The first match of pattern `p` (edit budget `max`) in the text whose
/// characters are `raw` and, as compared, `t`; `accept[e]` says whether a
/// match with `e` edits is similar enough.  An empty pattern matches at the
/// start; an empty text gives the all-deletions match when the budget
/// allows it.
pub open spec fn guard_result(p: Seq<char>, max: int, raw: Seq<char>, t: Seq<char>, accept: Seq<bool>) -> Option<
    GuardHit,
> {
    let m = p.len() as int;
    if m == 0 {
        Some(GuardHit { start: 0, end: 0, insertions: 0, deletions: 0, substitutions: 0, edits: 0 })
    } else if t.len() == 0 {
        if m <= max {
            Some(GuardHit { start: 0, end: 0, insertions: 0, deletions: m as u8, substitutions: 0, edits: m as usize })
        } else {
            None
        }
    } else {
        match scan_result(p, max, t, accept, true) {
            Some(h) => Some(hit_bytes(raw, h)),
            None => None,
        }
    }
}

fn fold_text_chars(s: &Vec<char>, ci: bool) -> (r: Vec<char>)
    ensures
        r@ == fold_text(s@, ci),
{
    if !ci {
        return s.clone();
    }
    let mut r: Vec<char> = Vec::new();
    let mut i: usize = 0;
    while i < s.len()
        invariant
            i <= s@.len(),
            r@ == Seq::new(i as nat, |k: int| lower_first(s@[k])),
        decreases s@.len() - i,
    {
        let c = to_lower_char(s[i]);
        r.push(c);
        i = i + 1;
        assert(r@ =~= Seq::new(i as nat, |k: int| lower_first(s@[k])));
    }
    r
}

/// Approximate matcher that guards its search by the pattern's first character.
pub struct GuardNfa {
    pattern: Vec<char>,
    pattern_len: usize,
    edit_limits: EditLimits,
    case_insensitive: bool,
    first_char: char,
}

impl GuardNfa {
    pub closed spec fn spec_pattern(&self) -> Seq<char> {
        self.pattern@
    }

    pub closed spec fn spec_limits(&self) -> EditLimits {
        self.edit_limits
    }

    pub closed spec fn spec_case_insensitive(&self) -> bool {
        self.case_insensitive
    }

    pub closed spec fn spec_first_char(&self) -> char {
        self.first_char
    }

    pub closed spec fn wf(&self) -> bool {
        &&& self.pattern_len == self.pattern@.len()
        &&& self.first_char == if self.pattern@.len() > 0 {
            self.pattern@[0]
        } else {
            '\0'
        }
    }

    /// The matcher for `pattern`, lowercased first when case-insensitive.
    pub fn new(pattern: &str, edit_limits: EditLimits, case_insensitive: bool) -> (r: Self)
        ensures
            r.wf(),
            r.spec_pattern() == folded_pattern(pattern@, case_insensitive),
            r.spec_limits() == edit_limits,
            r.spec_case_insensitive() == case_insensitive,
            r.spec_first_char() == if r.spec_pattern().len() > 0 {
                r.spec_pattern()[0]
            } else {
                '\0'
            },
    {
        let pattern = if case_insensitive {
            let lowered = str_to_lowercase(pattern);
            decode_text(lowered.as_str()).0
        } else {
            decode_text(pattern).0
        };
        let pattern_len = pattern.len();
        let first_char = if pattern_len > 0 {
            pattern[0]
        } else {
            '\0'
        };
        GuardNfa { pattern, pattern_len, edit_limits, case_insensitive, first_char }
    }

    /// What a match's similarity is computed against: the pattern's length
    /// plus the edit budget.
    pub fn similarity_scale(&self) -> (r: u128)
        requires
            self.wf(),
        ensures
            r == self.spec_pattern().len() + self.spec_limits().max_edits,
    {
        self.pattern_len as u128 + self.edit_limits.max_edits as u128
    }

    /// The first match in `text`, where `accept[e]` says whether a match
    /// with `e` edits is similar enough to report: the first run of the
    /// edit automaton to complete, reported from where it started to just
    /// after the last character it consumed (see [`edit_scan`]).
    pub fn find_first_hit(&self, text: &str, accept: &[bool]) -> (r: Option<GuardHit>)
        requires
            self.wf(),
            accept@.len() > self.spec_limits().max_edits,
        ensures
            r == guard_result(
                self.spec_pattern(),
                self.spec_limits().max_edits as int,
                text@,
                fold_text(text@, self.spec_case_insensitive()),
                accept@,
            ),
            r matches Some(h) ==> h.insertions + h.deletions + h.substitutions == h.edits && h.edits
                <= self.spec_limits().max_edits,
            forall|i: int|
                accept@[0] && exact_at(self.spec_pattern(), fold_text(text@, self.spec_case_insensitive()), i) ==> (
                r matches Some(h) && h.end <= byte_offset(text@, i + self.spec_pattern().len())),
            forall|i: int|
                self.spec_case_insensitive() && accept@[0] && #[trigger] occurs_lowercased(self.spec_pattern(), text@, i) ==> (
                r matches Some(h) && h.end <= byte_offset(text@, i + self.spec_pattern().len())),
    {
        proof {
            assert forall|i: int| #[trigger] occurs_lowercased(self.spec_pattern(), text@, i) implies exact_at(
                self.spec_pattern(),
                fold_text(text@, true),
                i,
            ) by {
                lemma_fold_text_lowercases(self.spec_pattern(), text@, i);
            }
        }
        let max_edits = self.edit_limits.max_edits as usize;
        let m = self.pattern_len;
        if m == 0 {
            return Some(GuardHit { start: 0, end: 0, insertions: 0, deletions: 0, substitutions: 0, edits: 0 });
        }
        let (raw, offs) = decode_text(text);
        let text_chars = fold_text_chars(&raw, self.case_insensitive);
        let text_len = text_chars.len();
        if text_len == 0 {
            proof {
                assert forall|i: int| !exact_at(self.pattern@, text_chars@, i) by {}
            }
            if m <= max_edits {
                return Some(
                    GuardHit { start: 0, end: 0, insertions: 0, deletions: m as u8, substitutions: 0, edits: m },
                );
            }
            return None;
        }
        match edit_scan(&self.pattern, max_edits, &text_chars, accept, true) {
            Some(h) => {
                proof {
                    lemma_offset_bounds(text@, h.start as int);
                    lemma_offset_bounds(text@, h.end as int);
                    assert forall|i: int| accept@[0] && exact_at(self.pattern@, text_chars@, i) implies byte_offset(
                        text@,
                        h.end as int,
                    ) <= byte_offset(text@, i + m) by {
                        if h.end < i + m {
                            lemma_offset_strict(text@, h.end as int, i + m);
                        }
                    }
                }
                Some(
                    GuardHit {
                        start: offs[h.start],
                        end: offs[h.end],
                        insertions: h.insertions,
                        deletions: h.deletions,
                        substitutions: h.substitutions,
                        edits: h.edits,
                    },
                )
            },
            None => None,
        }
    }
}

} // verus!
