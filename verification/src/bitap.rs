//! Bit-parallel approximate matching of a literal pattern: the per-character
//! and per-byte masks of the shift-or automaton, the skip table used to
//! jump over text that cannot start a match, and the exact optimal string
//! alignment distance and edit breakdown of a candidate window.
use vstd::prelude::*;
use crate::damlev::{EditLimits, EditMatch, rank_in, edits_of, same_span, rank_lookup, first_lowercase, first_of};
use crate::text::spec_char_lowercase;
use crate::nfa::{is_ascii_char, is_ascii_alpha, ascii_lower, ascii_upper, to_ascii_lower, to_ascii_upper};
use crate::text::{lemma_offset_gap_upper, str_to_lowercase, spec_str_lowercase, decode_text, decode_utf8_bytes, lemma_ascii_bytes_decode, byte_offset, offsets_of, lemma_window_bytes, lemma_offset_bounds, lemma_offset_strict, lemma_ascii_offsets, lemma_decode_len, lemma_offset_gap};
use crate::osa::{lemma_osa_same, lemma_osa_lower, swappable, min2, osa, breakdown, distance_table, lemma_breakdown_valid, breakdown_dp, distance_dp};
use vstd::utf8::{valid_utf8, decode_utf8, encode_utf8, is_ascii_chars, is_ascii_chars_encode_utf8};
use vstd::string::StringSliceAdditionalSpecFns;

verus! {

/// Longest pattern the automaton can hold: one bit of a `u128` per character.
pub const MAX_PATTERN_LEN: usize = 128;

/// Longest pattern a matcher is made for.
pub const MAX_MATCHER_LEN: usize = 64;

/// Bit `j` of `m` is clear: in the shift-or encoding, "pattern position `j` matches".
pub open spec fn cleared(m: u128, j: u128) -> bool {
    (m >> j) & 1 == 0
}

/// `m` has bit `j` clear exactly for the positions `j < upto` where `p[j]` satisfies `hit`.
pub open spec fn mask_upto(m: u128, p: Seq<char>, upto: int, hit: spec_fn(char) -> bool) -> bool {
    forall|j: u128| j < 128 ==> (#[trigger] cleared(m, j) <==> (j < upto && j < p.len() && hit(p[j as int])))
}

/// `m` is the mask of character `c` for pattern `p`: bit `j` clear exactly where `p[j] == c`.
pub open spec fn char_mask_of(m: u128, p: Seq<char>, c: char) -> bool {
    mask_upto(m, p, p.len() as int, |x: char| x == c)
}

/// The pattern character `c` accounts for the text byte `b`: it is that byte,
/// or (case-insensitively) an ASCII letter of which `b` is a case variant.
pub open spec fn byte_hits(c: char, b: int, ci: bool) -> bool {
    is_ascii_char(c) && ((c as int) == b || (ci && is_ascii_alpha(c) && ((ascii_lower(c) as int) == b
        || (ascii_upper(c) as int) == b)))
}

/// Some pattern character before position `upto` accounts for byte `b`.
pub open spec fn hit_before(p: Seq<char>, ci: bool, b: int, upto: int) -> bool {
    exists|j: int| 0 <= j < upto && #[trigger] byte_hits(p[j], b, ci)
}

/// How far the scan may jump past a byte that no pattern character accounts for.
pub open spec fn skip_distance(len: int, max_edits: int) -> int {
    if len - max_edits >= 1 {
        len - max_edits
    } else {
        1
    }
}

/// The skip for byte `b`: zero where the pattern accounts for it, the skip distance elsewhere.
pub open spec fn skip_of(p: Seq<char>, ci: bool, max_edits: int, b: int) -> int {
    if hit_before(p, ci, b, p.len() as int) {
        0
    } else {
        skip_distance(p.len() as int, max_edits)
    }
}

proof fn lemma_clear_bit(x: u128, i: u128, j: u128)
    by (bit_vector)
    requires
        i < 128,
        j < 128,
    ensures
        ((x & !(1u128 << i)) >> j) & 1 == (if i == j {
            0
        } else {
            (x >> j) & 1
        }),
{
}

proof fn lemma_all_ones(j: u128)
    by (bit_vector)
    requires
        j < 128,
    ensures
        ((!0u128) >> j) & 1 == 1,
{
}

proof fn lemma_bit_is_01(x: u128, j: u128)
    by (bit_vector)
    ensures
        (x >> j) & 1 == 0 || (x >> j) & 1 == 1,
{
}

proof fn lemma_mask_start(p: Seq<char>, hit: spec_fn(char) -> bool)
    ensures
        mask_upto(!0u128, p, 0, hit),
{
    assert forall|j: u128| j < 128 implies (#[trigger] cleared(!0u128, j) <==> (j < 0 && j < p.len() && hit(
        p[j as int],
    ))) by {
        lemma_all_ones(j);
    }
}

/// Clearing bit `i` records a pattern character that satisfies `hit`.
proof fn lemma_mask_hit(m: u128, p: Seq<char>, i: int, hit: spec_fn(char) -> bool)
    requires
        mask_upto(m, p, i, hit),
        0 <= i < p.len(),
        i < 128,
        hit(p[i]),
    ensures
        mask_upto(m & !(1u128 << (i as u128)), p, i + 1, hit),
{
    assert forall|j: u128| j < 128 implies (#[trigger] cleared(m & !(1u128 << (i as u128)), j) <==> (j < i + 1 && j
        < p.len() && hit(p[j as int]))) by {
        lemma_clear_bit(m, i as u128, j);
        assert(cleared(m, j) <==> (j < i && j < p.len() && hit(p[j as int])));
    }
}

/// A pattern character that fails `hit` leaves the mask as it is.
proof fn lemma_mask_miss(m: u128, p: Seq<char>, i: int, hit: spec_fn(char) -> bool)
    requires
        mask_upto(m, p, i, hit),
        0 <= i < p.len(),
        !hit(p[i]),
    ensures
        mask_upto(m, p, i + 1, hit),
{
    assert forall|j: u128| j < 128 implies (#[trigger] cleared(m, j) <==> (j < i + 1 && j < p.len() && hit(
        p[j as int],
    ))) by {
        assert(cleared(m, j) <==> (j < i && j < p.len() && hit(p[j as int])));
    }
}

/// `c` is one of the keys of `masks`.
pub open spec fn has_key(masks: Seq<(char, u128)>, c: char) -> bool {
    exists|k: int| 0 <= k < masks.len() && #[trigger] masks[k].0 == c
}

/// The mask of every distinct character of `p`.
fn build_char_masks(p: &Vec<char>) -> (r: Vec<(char, u128)>)
    requires
        p@.len() <= MAX_PATTERN_LEN,
    ensures
        forall|k: int| 0 <= k < r@.len() ==> char_mask_of(#[trigger] r@[k].1, p@, r@[k].0),
        forall|k: int, l: int| 0 <= k < l < r@.len() ==> #[trigger] r@[k].0 != #[trigger] r@[l].0,
        forall|j: int| 0 <= j < p@.len() ==> has_key(r@, #[trigger] p@[j]),
{
    let mut masks: Vec<(char, u128)> = Vec::new();
    let mut i: usize = 0;
    while i < p.len()
        invariant
            i <= p@.len() <= MAX_PATTERN_LEN,
            forall|k: int| 0 <= k < masks@.len() ==> mask_upto(#[trigger] masks@[k].1, p@, i as int, |x: char| x == masks@[k].0),
            forall|k: int, l: int| 0 <= k < l < masks@.len() ==> #[trigger] masks@[k].0 != #[trigger] masks@[l].0,
            forall|j: int| 0 <= j < i ==> has_key(masks@, #[trigger] p@[j]),
        decreases p@.len() - i,
    {
        let ch = p[i];
        let mut k: usize = 0;
        let mut found = false;
        while k < masks.len()
            invariant_except_break
                !found,
            invariant
                k <= masks@.len(),
                forall|l: int| 0 <= l < k ==> masks@[l].0 != ch,
            ensures
                found ==> k < masks@.len() && masks@[k as int].0 == ch,
                !found ==> forall|l: int| 0 <= l < masks@.len() ==> masks@[l].0 != ch,
            decreases masks@.len() - k,
        {
            if masks[k].0 == ch {
                found = true;
                break;
            }
            k = k + 1;
        }
        let ghost old_masks = masks@;
        let bit = !(1u128 << (i as u128));
        if found {
            let m = masks[k].1;
            masks.set(k, (ch, m & bit));
            proof {
                assert forall|l: int| 0 <= l < masks@.len() implies mask_upto(
                    #[trigger] masks@[l].1,
                    p@,
                    i + 1,
                    |x: char| x == masks@[l].0,
                ) by {
                    let c = masks@[l].0;
                    if l == k {
                        lemma_mask_hit(m, p@, i as int, |x: char| x == c);
                    } else {
                        lemma_mask_miss(old_masks[l].1, p@, i as int, |x: char| x == c);
                    }
                }
                assert forall|j: int| 0 <= j < i + 1 implies has_key(masks@, #[trigger] p@[j]) by {
                    if j == i {
                        assert(masks@[k as int].0 == p@[j]);
                    } else {
                        assert(has_key(old_masks, p@[j]));
                        let l = choose|l: int| 0 <= l < old_masks.len() && #[trigger] old_masks[l].0 == p@[j];
                        assert(masks@[l].0 == p@[j]);
                    }
                }
            }
        } else {
            proof {
                lemma_mask_start(p@, |x: char| x == ch);
                assert forall|j: int| 0 <= j < i implies p@[j] != ch by {
                    assert(has_key(old_masks, p@[j]));
                }
                assert forall|j: int| 0 <= j < i implies !((|x: char| x == ch)(p@[j])) by {
                    assert(p@[j] != ch);
                }
                assert(mask_upto(!0u128, p@, i as int, |x: char| x == ch)) by {
                    assert forall|j: u128| j < 128 implies (#[trigger] cleared(!0u128, j) <==> (j < i && j < p@.len()
                        && (|x: char| x == ch)(p@[j as int]))) by {
                        lemma_all_ones(j);
                        if j < i {
                            assert(p@[j as int] != ch);
                        }
                    }
                }
                lemma_mask_hit(!0u128, p@, i as int, |x: char| x == ch);
            }
            masks.push((ch, !0u128 & bit));
            proof {
                assert forall|l: int| 0 <= l < masks@.len() implies mask_upto(
                    #[trigger] masks@[l].1,
                    p@,
                    i + 1,
                    |x: char| x == masks@[l].0,
                ) by {
                    let c = masks@[l].0;
                    if l < old_masks.len() {
                        lemma_mask_miss(old_masks[l].1, p@, i as int, |x: char| x == c);
                    }
                }
                assert forall|j: int| 0 <= j < i + 1 implies has_key(masks@, #[trigger] p@[j]) by {
                    if j == i {
                        assert(masks@[old_masks.len() as int].0 == p@[j]);
                    } else {
                        assert(has_key(old_masks, p@[j]));
                        let l = choose|l: int| 0 <= l < old_masks.len() && #[trigger] old_masks[l].0 == p@[j];
                        assert(masks@[l].0 == p@[j]);
                    }
                }
            }
        }
        i = i + 1;
    }
    masks
}

/// The byte of an ASCII character.
fn ascii_byte(c: char) -> (r: usize)
    requires
        is_ascii_char(c),
    ensures
        r == c as int,
        r < 128,
{
    (c as u32) as usize
}

/// The bytes that the ASCII pattern character `ch` accounts for are exactly
/// `ch` and, when case-insensitive, its other-case letter.
proof fn lemma_hits_of(ch: char, ci: bool, b: int)
    requires
        is_ascii_char(ch),
    ensures
        byte_hits(ch, b, ci) <==> (b == ch as int || (ci && 'a' <= ch <= 'z' && b == ascii_upper(ch) as int) || (ci
            && 'A' <= ch <= 'Z' && b == ascii_lower(ch) as int)),
{
}

/// Clears bit `i` of `v[b]`.
fn clear_at(v: &mut Vec<u128>, b: usize, i: usize)
    requires
        b < old(v)@.len(),
        i < 128,
    ensures
        final(v)@ == old(v)@.update(b as int, old(v)@[b as int] & !(1u128 << (i as u128))),
{
    let m = v[b];
    v.set(b, m & !(1u128 << (i as u128)));
}

/// The mask of every ASCII byte: bit `j` clear where `p[j]` accounts for the byte.
fn build_byte_masks(p: &Vec<char>, ci: bool) -> (r: Vec<u128>)
    requires
        p@.len() <= MAX_PATTERN_LEN,
    ensures
        r@.len() == 128,
        forall|b: int| 0 <= b < 128 ==> mask_upto(#[trigger] r@[b], p@, p@.len() as int, |c: char| byte_hits(c, b, ci)),
{
    let mut masks: Vec<u128> = Vec::new();
    let mut b: usize = 0;
    while b < 128
        invariant
            b <= 128,
            masks@.len() == b,
            forall|x: int| 0 <= x < b ==> #[trigger] masks@[x] == !0u128,
        decreases 128 - b,
    {
        masks.push(!0u128);
        b = b + 1;
    }
    proof {
        assert forall|x: int| 0 <= x < 128 implies mask_upto(#[trigger] masks@[x], p@, 0, |c: char| byte_hits(c, x, ci)) by {
            lemma_mask_start(p@, |c: char| byte_hits(c, x, ci));
        }
    }
    let mut i: usize = 0;
    while i < p.len()
        invariant
            i <= p@.len() <= MAX_PATTERN_LEN,
            masks@.len() == 128,
            forall|x: int| 0 <= x < 128 ==> mask_upto(#[trigger] masks@[x], p@, i as int, |c: char| byte_hits(c, x, ci)),
        decreases p@.len() - i,
    {
        let ch = p[i];
        let ghost before = masks@;
        if (ch as u32) < 128 {
            let b = ascii_byte(ch);
            clear_at(&mut masks, b, i);
            if ci {
                if 'a' <= ch && ch <= 'z' {
                    let u = ascii_byte(to_ascii_upper(ch));
                    clear_at(&mut masks, u, i);
                } else if 'A' <= ch && ch <= 'Z' {
                    let l = ascii_byte(to_ascii_lower(ch));
                    clear_at(&mut masks, l, i);
                }
            }
        }
        proof {
            assert forall|x: int| 0 <= x < 128 implies mask_upto(#[trigger] masks@[x], p@, i + 1, |c: char| byte_hits(c, x, ci)) by {
                let hit = |c: char| byte_hits(c, x, ci);
                if is_ascii_char(ch) {
                    lemma_hits_of(ch, ci, x);
                }
                if hit(ch) {
                    assert(masks@[x] == before[x] & !(1u128 << (i as u128)));
                    lemma_mask_hit(before[x], p@, i as int, hit);
                } else {
                    assert(masks@[x] == before[x]);
                    lemma_mask_miss(before[x], p@, i as int, hit);
                }
            }
        }
        i = i + 1;
    }
    masks
}

/// The skip of every byte value: zero for the bytes the pattern accounts
/// for, the skip distance for the rest.
fn build_skip_table(p: &Vec<char>, ci: bool, max_edits: u8) -> (r: Vec<u8>)
    requires
        1 <= p@.len() <= MAX_PATTERN_LEN,
    ensures
        r@.len() == 256,
        forall|b: int| 0 <= b < 256 ==> #[trigger] r@[b] == skip_of(p@, ci, max_edits as int, b),
{
    let len = p.len();
    let dist: u8 = if len > max_edits as usize + 1 {
        (len - max_edits as usize) as u8
    } else {
        1
    };
    let mut table: Vec<u8> = Vec::new();
    let mut b: usize = 0;
    while b < 256
        invariant
            b <= 256,
            table@.len() == b,
            forall|x: int| 0 <= x < b ==> #[trigger] table@[x] == dist,
        decreases 256 - b,
    {
        table.push(dist);
        b = b + 1;
    }
    let mut i: usize = 0;
    while i < len
        invariant
            len == p@.len() <= MAX_PATTERN_LEN,
            i <= len,
            table@.len() == 256,
            dist == skip_distance(len as int, max_edits as int),
            forall|x: int| 0 <= x < 256 ==> #[trigger] table@[x] == (if hit_before(p@, ci, x, i as int) {
                0
            } else {
                dist as int
            }),
        decreases len - i,
    {
        let ch = p[i];
        let ghost before = table@;
        if (ch as u32) < 128 {
            let b = ascii_byte(ch);
            table.set(b, 0);
            if ci {
                if 'a' <= ch && ch <= 'z' {
                    let u = ascii_byte(to_ascii_upper(ch));
                    table.set(u, 0);
                } else if 'A' <= ch && ch <= 'Z' {
                    let l = ascii_byte(to_ascii_lower(ch));
                    table.set(l, 0);
                }
            }
        }
        proof {
            assert forall|x: int| 0 <= x < 256 implies #[trigger] table@[x] == (if hit_before(p@, ci, x, i + 1) {
                0
            } else {
                dist as int
            }) by {
                if is_ascii_char(ch) {
                    lemma_hits_of(ch, ci, x);
                }
                if byte_hits(p@[i as int], x, ci) {
                    assert(hit_before(p@, ci, x, i + 1));
                } else {
                    assert(table@[x] == before[x]);
                    if hit_before(p@, ci, x, i + 1) {
                        let j = choose|j: int| 0 <= j < i + 1 && #[trigger] byte_hits(p@[j], x, ci);
                        assert(hit_before(p@, ci, x, i as int));
                    }
                    if hit_before(p@, ci, x, i as int) {
                        let j = choose|j: int| 0 <= j < i && #[trigger] byte_hits(p@[j], x, ci);
                        assert(hit_before(p@, ci, x, i + 1));
                    }
                }
            }
        }
        i = i + 1;
    }
    table
}

/// The first code point of the 256-code-point block that holds `c`.
pub open spec fn block_of(c: char) -> u32 {
    (c as u32) & !0xFFu32
}

/// The position of `c` within its block.
pub open spec fn block_index(c: char) -> u32 {
    (c as u32) & 0xFFu32
}

/// Every non-ASCII character of `p` lies in one block.
pub open spec fn one_block(p: Seq<char>) -> bool {
    forall|j: int, k: int|
        0 <= j < p.len() && 0 <= k < p.len() && !is_ascii_char(#[trigger] p[j]) && !is_ascii_char(#[trigger] p[k])
            ==> block_of(p[j]) == block_of(p[k])
}

/// `v` holds, for each position `x` of the block at `base`, the mask of the code point `base + x`.
pub open spec fn block_masks_of(v: Seq<u128>, p: Seq<char>, base: u32) -> bool {
    &&& v.len() == 256
    &&& forall|x: int| 0 <= x < 256 ==> mask_upto(#[trigger] v[x], p, p.len() as int, |c: char| (c as u32) as int == base + x)
}

proof fn lemma_block_split(v: u32)
    by (bit_vector)
    ensures
        (v & !0xFFu32) + (v & 0xFFu32) == v,
        (v & 0xFFu32) < 256,
        ((v & !0xFFu32) & 0xFFu32) == 0,
{
}

proof fn lemma_block_join(v: u32, base: u32, x: u32)
    by (bit_vector)
    requires
        base & 0xFFu32 == 0,
        x < 256,
        v == base + x,
    ensures
        v & !0xFFu32 == base,
        v & 0xFFu32 == x,
{
}

proof fn lemma_char_eq(a: char, b: char)
    ensures
        (a as u32 == b as u32) <==> a == b,
{
}

/// For a pattern whose non-ASCII characters all lie in one block, the masks
/// of that block's code points; otherwise nothing.
fn build_unicode_block_masks(pattern_chars: &Vec<char>, char_masks: &Vec<(char, u128)>) -> (r: (u32, Option<Vec<u128>>))
    requires
        forall|k: int| 0 <= k < char_masks@.len() ==> char_mask_of(#[trigger] char_masks@[k].1, pattern_chars@, char_masks@[k].0),
        forall|k: int, l: int| 0 <= k < l < char_masks@.len() ==> #[trigger] char_masks@[k].0 != #[trigger] char_masks@[l].0,
        forall|j: int| 0 <= j < pattern_chars@.len() ==> has_key(char_masks@, #[trigger] pattern_chars@[j]),
    ensures
        r.1 is Some <==> (exists|j: int| 0 <= j < pattern_chars@.len() && !is_ascii_char(#[trigger] pattern_chars@[j]))
            && one_block(pattern_chars@),
        r.1 is None ==> r.0 == 0,
        r.1 is Some ==> block_masks_of(r.1.unwrap()@, pattern_chars@, r.0),
        r.1 is Some ==> forall|j: int| 0 <= j < pattern_chars@.len() && !is_ascii_char(#[trigger] pattern_chars@[j]) ==> block_of(pattern_chars@[j]) == r.0,
{
    let p = pattern_chars;
    let ghost ps = p@;
    let mut first: usize = 0;
    while first < p.len()
        invariant
            first <= ps.len(),
            ps == p@,
            ps == pattern_chars@,
            forall|j: int| 0 <= j < first ==> is_ascii_char(#[trigger] ps[j]),
        ensures
            first <= ps.len(),
            forall|j: int| 0 <= j < first ==> is_ascii_char(#[trigger] ps[j]),
            first < ps.len() ==> !is_ascii_char(ps[first as int]),
        decreases ps.len() - first,
    {
        if (p[first] as u32) >= 128 {
            break;
        }
        first = first + 1;
    }
    if first == p.len() {
        return (0, None);
    }
    let base = (p[first] as u32) & !0xFFu32;
    let mut j: usize = 0;
    while j < p.len()
        invariant
            j <= ps.len(),
            ps == p@,
            ps == pattern_chars@,
            first < ps.len(),
            !is_ascii_char(ps[first as int]),
            base == block_of(ps[first as int]),
            forall|l: int| 0 <= l < j && !is_ascii_char(#[trigger] ps[l]) ==> block_of(ps[l]) == base,
        decreases ps.len() - j,
    {
        let c = p[j];
        if (c as u32) >= 128 && ((c as u32) & !0xFFu32) != base {
            proof {
                let jj = j as int;
                let ff = first as int;
                assert(ps[jj] == c);
                assert(!is_ascii_char(ps[jj]));
                assert(!is_ascii_char(ps[ff]));
                assert(block_of(ps[jj]) != block_of(ps[ff]));
                assert(!one_block(ps));
            }
            return (0, None);
        }
        j = j + 1;
    }
    proof {
        lemma_block_split(ps[first as int] as u32);
    }
    let mut masks: Vec<u128> = Vec::new();
    let mut x: usize = 0;
    while x < 256
        invariant
            x <= 256,
            masks@.len() == x,
            forall|y: int| 0 <= y < x ==> #[trigger] masks@[y] == !0u128,
        decreases 256 - x,
    {
        masks.push(!0u128);
        x = x + 1;
    }
    let cm = char_masks;
    let mut t: usize = 0;
    while t < cm.len()
        invariant
            t <= cm@.len(),
            masks@.len() == 256,
            cm == char_masks,
            base & 0xFFu32 == 0,
            forall|k: int, l: int| 0 <= k < l < cm@.len() ==> #[trigger] cm@[k].0 != #[trigger] cm@[l].0,
            forall|y: int|
                0 <= y < 256 && (forall|k: int| 0 <= k < t ==> !(block_of(#[trigger] cm@[k].0) == base && block_index(cm@[k].0) == y))
                    ==> #[trigger] masks@[y] == !0u128,
            forall|k: int| 0 <= k < t && block_of(#[trigger] cm@[k].0) == base ==> masks@[block_index(cm@[k].0) as int] == cm@[k].1,
        decreases cm@.len() - t,
    {
        let (ch, m) = cm[t];
        let cp = ch as u32;
        if (cp & !0xFFu32) == base {
            let idx = (cp & 0xFFu32) as usize;
            proof {
                lemma_block_split(cp);
            }
            let ghost before = masks@;
            masks.set(idx, m);
            proof {
                assert forall|k: int| 0 <= k < t + 1 && block_of(#[trigger] cm@[k].0) == base implies masks@[block_index(cm@[k].0) as int] == cm@[k].1 by {
                    if k < t {
                        let a = cm@[k].0 as u32;
                        lemma_block_split(a);
                        if block_index(cm@[k].0) == idx {
                            lemma_char_eq(cm@[k].0, ch);
                            assert(a == cp);
                            assert(false);
                        }
                    }
                }
            }
        }
        t = t + 1;
    }
    proof {
        assert forall|y: int| 0 <= y < 256 implies mask_upto(#[trigger] masks@[y], ps, ps.len() as int, |c: char| (c as u32) as int == base + y) by {
            let hit = |c: char| (c as u32) as int == base + y;
            if exists|k: int| 0 <= k < cm@.len() && block_of(#[trigger] cm@[k].0) == base && block_index(cm@[k].0) == y {
                let k = choose|k: int| 0 <= k < cm@.len() && block_of(#[trigger] cm@[k].0) == base && block_index(cm@[k].0) == y;
                let key = cm@[k].0;
                lemma_block_split(key as u32);
                assert(char_mask_of(cm@[k].1, ps, key));
                assert forall|i: u128| i < 128 implies (#[trigger] cleared(masks@[y], i) <==> (i < ps.len() && i < ps.len() && hit(ps[i as int]))) by {
                    if i < ps.len() {
                        lemma_char_eq(ps[i as int], key);
                    }
                }
            } else {
                assert forall|i: u128| i < 128 implies (#[trigger] cleared(masks@[y], i) <==> (i < ps.len() && i < ps.len() && hit(ps[i as int]))) by {
                    lemma_all_ones(i);
                    if i < ps.len() && hit(ps[i as int]) {
                        let c = ps[i as int];
                        assert(has_key(cm@, c));
                        let k = choose|k: int| 0 <= k < cm@.len() && #[trigger] cm@[k].0 == c;
                        lemma_block_join(c as u32, base, y as u32);
                        assert(block_of(cm@[k].0) == base && block_index(cm@[k].0) == y);
                    }
                }
            }
        }
    }
    (base, Some(masks))
}

/// `s` with ASCII letters lowercased when `ci` holds.
pub open spec fn fold_ascii(s: Seq<char>, ci: bool) -> Seq<char> {
    if ci {
        Seq::new(s.len(), |i: int| ascii_lower(s[i]))
    } else {
        s
    }
}

/// Every byte is below 128.
pub open spec fn ascii_bytes(b: Seq<u8>) -> bool {
    forall|i: int| 0 <= i < b.len() ==> #[trigger] b[i] < 128
}

/// The bytes of `b` read one character each (the characters of `b` when it
/// is ASCII text).
pub open spec fn ascii_text(b: Seq<u8>) -> Seq<char> {
    Seq::new(b.len(), |i: int| b[i] as char)
}

/// Every character is ASCII.
pub open spec fn ascii_chars(s: Seq<char>) -> bool {
    forall|i: int| 0 <= i < s.len() ==> is_ascii_char(#[trigger] s[i])
}

/// The breakdown `(insertions, deletions, substitutions, transpositions)` of
/// an optimal alignment of the pattern with the characters of window `w`;
/// all deletions when `w` is not valid UTF-8.
pub open spec fn window_breakdown(p: Seq<char>, ci: bool, w: Seq<u8>) -> (int, int, int, int) {
    if !valid_utf8(w) {
        (0, p.len() as int, 0, 0)
    } else {
        let t = decode_utf8(w);
        let b = breakdown(fold_ascii(p, ci), fold_ascii(t, ci), p.len() as int, t.len() as int);
        (b.1, b.2, b.3, b.4)
    }
}

/// The optimal string alignment distance of the pattern and window `w`, for
/// the windows short enough for the distance gate (fewer than 72 pattern
/// characters; an all-ASCII window of fewer than 72 bytes when the pattern
/// is ASCII, at most 72 characters otherwise).
pub open spec fn window_distance(p: Seq<char>, ci: bool, w: Seq<u8>) -> Option<int> {
    if p.len() >= 72 {
        None
    } else if w.len() == 0 {
        Some(p.len() as int)
    } else if ascii_chars(p) && ascii_bytes(w) && w.len() >= 72 {
        None
    } else if !valid_utf8(w) || decode_utf8(w).len() > 72 {
        None
    } else {
        let t = decode_utf8(w);
        Some(osa(fold_ascii(p, ci), fold_ascii(t, ci), p.len() as int, t.len() as int))
    }
}

fn fold_chars(s: &Vec<char>, ci: bool) -> (r: Vec<char>)
    ensures
        r@ == fold_ascii(s@, ci),
{
    if !ci {
        return s.clone();
    }
    let mut r: Vec<char> = Vec::new();
    let mut i: usize = 0;
    while i < s.len()
        invariant
            i <= s@.len(),
            r@ == Seq::new(i as nat, |k: int| ascii_lower(s@[k])),
        decreases s@.len() - i,
    {
        r.push(to_ascii_lower(s[i]));
        i = i + 1;
        assert(r@ =~= Seq::new(i as nat, |k: int| ascii_lower(s@[k])));
    }
    r
}

fn all_ascii_bytes(b: &[u8]) -> (r: bool)
    ensures
        r == ascii_bytes(b@),
{
    let mut i: usize = 0;
    while i < b.len()
        invariant
            i <= b@.len(),
            forall|k: int| 0 <= k < i ==> #[trigger] b@[k] < 128,
        decreases b@.len() - i,
    {
        if b[i] >= 128 {
            return false;
        }
        i = i + 1;
    }
    true
}

/// The characters of an all-ASCII byte string.
fn ascii_bytes_to_chars(b: &[u8]) -> (r: Vec<char>)
    requires
        ascii_bytes(b@),
    ensures
        valid_utf8(b@),
        r@ == decode_utf8(b@),
        r@.len() == b@.len(),
{
    proof {
        lemma_ascii_bytes_decode(b@);
    }
    let mut r: Vec<char> = Vec::new();
    let mut i: usize = 0;
    while i < b.len()
        invariant
            i <= b@.len(),
            r@ == Seq::new(i as nat, |k: int| b@[k] as char),
        decreases b@.len() - i,
    {
        r.push(b[i] as char);
        i = i + 1;
        assert(r@ =~= Seq::new(i as nat, |k: int| b@[k] as char));
    }
    assert(r@ =~= Seq::new(b@.len(), |k: int| b@[k] as char));
    r
}

/// A window's breakdown is an optimal alignment of the pattern with the
/// window's characters: its counts add up to their optimal string alignment
/// distance, it inserts as many characters more than it deletes as the
/// window is longer than the pattern, and the distance gate, wherever it
/// answers, gives that same total.
pub proof fn lemma_window_breakdown_exact(p: Seq<char>, ci: bool, w: Seq<u8>)
    requires
        valid_utf8(w),
    ensures
        window_breakdown(p, ci, w).0 + window_breakdown(p, ci, w).1 + window_breakdown(p, ci, w).2 + window_breakdown(
            p,
            ci,
            w,
        ).3 == osa(fold_ascii(p, ci), fold_ascii(decode_utf8(w), ci), p.len() as int, decode_utf8(w).len() as int),
        window_breakdown(p, ci, w).0 - window_breakdown(p, ci, w).1 == decode_utf8(w).len() - p.len(),
        window_breakdown(p, ci, w).0 >= 0,
        window_breakdown(p, ci, w).1 >= 0,
        window_breakdown(p, ci, w).2 >= 0,
        window_breakdown(p, ci, w).3 >= 0,
        window_distance(p, ci, w) matches Some(d) ==> d == window_breakdown(p, ci, w).0 + window_breakdown(p, ci, w).1
            + window_breakdown(p, ci, w).2 + window_breakdown(p, ci, w).3,
{
    let t = decode_utf8(w);
    let fp = fold_ascii(p, ci);
    let ft = fold_ascii(t, ci);
    lemma_breakdown_valid(fp, ft, p.len() as int, t.len() as int);
    if w.len() == 0 {
        assert(t.len() == 0);
    }
}

fn bytes_equal(a: &[u8], b: &[u8]) -> (r: bool)
    ensures
        r == (a@ == b@),
{
    if a.len() != b.len() {
        return false;
    }
    let mut i: usize = 0;
    while i < a.len()
        invariant
            a@.len() == b@.len(),
            i <= a@.len(),
            forall|k: int| 0 <= k < i ==> a@[k] == b@[k],
        decreases a@.len() - i,
    {
        if a[i] != b[i] {
            return false;
        }
        i = i + 1;
    }
    assert(a@ =~= b@);
    true
}

/// A vector of `n` copies of `x`.
fn filled(n: usize, x: u128) -> (r: Vec<u128>)
    ensures
        r@.len() == n,
        forall|i: int| 0 <= i < n ==> #[trigger] r@[i] == x,
{
    let mut v: Vec<u128> = Vec::new();
    let mut i: usize = 0;
    while i < n
        invariant
            i <= n,
            v@.len() == i,
            forall|k: int| 0 <= k < i ==> #[trigger] v@[k] == x,
        decreases n - i,
    {
        v.push(x);
        i = i + 1;
    }
    v
}

/// The breakdown that attributes the length difference of pattern and
/// text (`n` characters, `m` pattern characters) to insertions or
/// deletions, as far as `d` edits allow, and the rest to substitutions.
pub open spec fn length_split(n: int, m: int, d: u8) -> (u8, u8, u8, u8) {
    if n >= m {
        let diff = ((n - m) % 256) as u8;
        let ins = if diff < d {
            diff
        } else {
            d
        };
        (ins, 0, (d - ins) as u8, 0)
    } else {
        let diff = (m - n) as u8;
        let del = if diff < d {
            diff
        } else {
            d
        };
        (0, del, (d - del) as u8, 0)
    }
}

/// Approximate matcher for one literal pattern.
pub struct BitapMatcher {
    pattern: String,
    pattern_chars: Vec<char>,
    pattern_len: usize,
    limits: EditLimits,
    case_insensitive: bool,
    /// The mask of every distinct pattern character.
    char_masks: Vec<(char, u128)>,
    /// The mask of every ASCII byte, case variants folded in when case-insensitive.
    byte_masks: Vec<u128>,
    /// Skip distance for every byte value.
    skip_table: Vec<u8>,
    is_ascii: bool,
    /// The bit of the last pattern position.
    accept_mask: u128,
    /// First code point of the 256-code-point block that holds every non-ASCII pattern character.
    unicode_block_base: u32,
    /// The masks of that block's characters, when there is such a block.
    unicode_block_masks: Option<Vec<u128>>,
    prefer_min_edit: bool,
}

impl BitapMatcher {
    pub closed spec fn spec_pattern(&self) -> Seq<char> {
        self.pattern@
    }

    pub closed spec fn spec_pattern_chars(&self) -> Seq<char> {
        self.pattern_chars@
    }

    pub closed spec fn spec_limits(&self) -> EditLimits {
        self.limits
    }

    pub closed spec fn spec_case_insensitive(&self) -> bool {
        self.case_insensitive
    }

    pub closed spec fn spec_prefer_min_edit(&self) -> bool {
        self.prefer_min_edit
    }

    pub closed spec fn wf(&self) -> bool {
        let p = self.pattern_chars@;
        let ci = self.case_insensitive;
        &&& 1 <= p.len() <= MAX_MATCHER_LEN
        &&& self.pattern_len == p.len()
        &&& self.is_ascii == (forall|j: int| 0 <= j < p.len() ==> is_ascii_char(#[trigger] p[j]))
        &&& self.byte_masks@.len() == 128
        &&& forall|b: int|
            0 <= b < 128 ==> mask_upto(#[trigger] self.byte_masks@[b], p, p.len() as int, |c: char| byte_hits(c, b, ci))
        &&& self.skip_table@.len() == 256
        &&& forall|b: int| 0 <= b < 256 ==> #[trigger] self.skip_table@[b] == skip_of(p, ci, self.limits.max_edits as int, b)
        &&& self.accept_mask == 1u128 << ((p.len() - 1) as u128)
        &&& (!ci ==> self.pattern@ == p)
        &&& forall|k: int| 0 <= k < self.char_masks@.len() ==> char_mask_of(#[trigger] self.char_masks@[k].1, p, self.char_masks@[k].0)
        &&& forall|k: int, l: int| 0 <= k < l < self.char_masks@.len() ==> #[trigger] self.char_masks@[k].0 != #[trigger] self.char_masks@[l].0
        &&& forall|j: int| 0 <= j < p.len() ==> has_key(self.char_masks@, #[trigger] p[j])
        &&& match self.unicode_block_masks {
            Some(v) => block_masks_of(v@, p, self.unicode_block_base),
            None => true,
        }
    }

    /// Builds the matcher for `pattern` (lowercased first when
    /// case-insensitive); `None` when that has no character or more than
    /// [`MAX_MATCHER_LEN`] of them.
    #[verifier::spinoff_prover]
    pub fn new(pattern: &str, limits: EditLimits, case_insensitive: bool) -> (r: Option<Self>)
        ensures
            r is Some <==> 1 <= folded_pattern(pattern@, case_insensitive).len() <= MAX_MATCHER_LEN,
            r matches Some(m) ==> {
                &&& m.wf()
                &&& m.spec_pattern() == pattern@
                &&& m.spec_pattern_chars() == folded_pattern(pattern@, case_insensitive)
                &&& m.spec_limits() == limits
                &&& m.spec_case_insensitive() == case_insensitive
                &&& !m.spec_prefer_min_edit()
            },
    {
        let pattern_chars = if case_insensitive {
            let lowered = str_to_lowercase(pattern);
            decode_text(lowered.as_str()).0
        } else {
            decode_text(pattern).0
        };
        if pattern_chars.len() > MAX_MATCHER_LEN || pattern_chars.len() == 0 {
            return None;
        }
        let pattern_len = pattern_chars.len();
        let mut is_ascii = true;
        let mut i: usize = 0;
        while i < pattern_len
            invariant
                pattern_len == pattern_chars@.len(),
                i <= pattern_len,
                is_ascii == (forall|j: int| 0 <= j < i ==> is_ascii_char(#[trigger] pattern_chars@[j])),
            decreases pattern_len - i,
        {
            if (pattern_chars[i] as u32) >= 128 {
                is_ascii = false;
            }
            i = i + 1;
        }
        let char_masks = build_char_masks(&pattern_chars);
        let byte_masks = build_byte_masks(&pattern_chars, case_insensitive);
        let accept_mask = 1u128 << ((pattern_len - 1) as u128);
        let skip_table = build_skip_table(&pattern_chars, case_insensitive, limits.max_edits);
        let (unicode_block_base, unicode_block_masks) = build_unicode_block_masks(&pattern_chars, &char_masks);
        Some(BitapMatcher {
            pattern: pattern.to_owned(),
            pattern_chars,
            pattern_len,
            limits,
            case_insensitive,
            char_masks,
            byte_masks,
            skip_table,
            is_ascii,
            accept_mask,
            unicode_block_base,
            unicode_block_masks,
            prefer_min_edit: false,
        })
    }

    /// Chooses whether a match's end is later refined to the fewest edits.
    #[verifier::spinoff_prover]
    pub fn set_prefer_min_edit(&mut self, yes: bool)
        requires
            old(self).wf(),
        ensures
            final(self).wf(),
            final(self).spec_prefer_min_edit() == yes,
            final(self).spec_pattern() == old(self).spec_pattern(),
            final(self).spec_pattern_chars() == old(self).spec_pattern_chars(),
            final(self).spec_limits() == old(self).spec_limits(),
            final(self).spec_case_insensitive() == old(self).spec_case_insensitive(),
    {
        self.prefer_min_edit = yes;
    }

    /// The edit limits.
    pub fn limits(&self) -> (r: EditLimits)
        ensures
            r == self.spec_limits(),
    {
        self.limits
    }

    /// The pattern as given.
    pub fn pattern(&self) -> (r: &str)
        ensures
            r@ == self.spec_pattern(),
    {
        self.pattern.as_str()
    }

    /// The pattern's characters, lowercased when case-insensitive.
    pub fn pattern_chars(&self) -> (r: &[char])
        ensures
            r@ == self.spec_pattern_chars(),
    {
        self.pattern_chars.as_slice()
    }

    /// The mask of `ch`: bit `j` clear exactly where the pattern's `j`-th character is `ch`.
    fn get_mask(&self, ch: char) -> (r: u128)
        requires
            self.wf(),
        ensures
            char_mask_of(r, self.spec_pattern_chars(), ch),
    {
        let cp = ch as u32;
        let ghost p = self.pattern_chars@;
        if let Some(masks) = &self.unicode_block_masks {
            if (cp & !0xFFu32) == self.unicode_block_base {
                let x = (cp & 0xFFu32) as usize;
                proof {
                    lemma_block_split(cp);
                }
                let m = masks[x];
                proof {
                    assert(mask_upto(masks@[x as int], p, p.len() as int, |c: char| (c as u32) as int == self.unicode_block_base + x));
                    assert forall|j: u128| j < 128 implies (#[trigger] cleared(m, j) <==> (j < p.len() && j < p.len() && (|x: char| x == ch)(p[j as int]))) by {
                        if j < p.len() {
                            lemma_char_eq(p[j as int], ch);
                        }
                    }
                }
                return m;
            }
        }
        let mut k: usize = 0;
        while k < self.char_masks.len()
            invariant
                self.wf(),
                p == self.pattern_chars@,
                k <= self.char_masks@.len(),
                forall|l: int| 0 <= l < k ==> self.char_masks@[l].0 != ch,
            decreases self.char_masks@.len() - k,
        {
            if self.char_masks[k].0 == ch {
                return self.char_masks[k].1;
            }
            k = k + 1;
        }
        proof {
            assert forall|j: u128| j < 128 implies (#[trigger] cleared(!0u128, j) <==> (j < p.len() && j < p.len() && (|x: char| x == ch)(p[j as int]))) by {
                lemma_all_ones(j);
                if j < p.len() {
                    assert(has_key(self.char_masks@, p[j as int]));
                }
            }
        }
        !0u128
    }

    /// The optimal string alignment distance of the pattern and the window, a
    /// cheap gate before the breakdown; `None` for windows too long for it
    /// or not valid UTF-8.
    pub fn compute_damerau_distance(&self, matched_text: &[u8]) -> (r: Option<u8>)
        requires
            self.wf(),
        ensures
            r matches Some(d) ==> window_distance(self.spec_pattern_chars(), self.spec_case_insensitive(), matched_text@)
                == Some(d as int),
            r is None ==> window_distance(self.spec_pattern_chars(), self.spec_case_insensitive(), matched_text@) is None,
    {
        let m = self.pattern_chars.len();
        if m >= 72 {
            return None;
        }
        if matched_text.len() == 0 {
            return Some(m as u8);
        }
        let text_chars: Vec<char>;
        if self.is_ascii && all_ascii_bytes(matched_text) {
            if matched_text.len() >= 72 {
                return None;
            }
            text_chars = ascii_bytes_to_chars(matched_text);
        } else {
            proof {
                if ascii_bytes(matched_text@) {
                    lemma_ascii_bytes_decode(matched_text@);
                }
            }
            match decode_utf8_bytes(matched_text) {
                None => {
                    return None;
                },
                Some(cs) => {
                    if cs.len() > 72 {
                        return None;
                    }
                    text_chars = cs;
                },
            }
        }
        let p = fold_chars(&self.pattern_chars, self.case_insensitive);
        let t = fold_chars(&text_chars, self.case_insensitive);
        Some(distance_dp(p.as_slice(), t.as_slice()))
    }

    /// The breakdown `(insertions, deletions, substitutions, transpositions)`
    /// of an optimal alignment of the pattern with the window's characters.
    pub fn compute_exact_edit_breakdown(&self, matched_text: &[u8]) -> (r: (u8, u8, u8, u8))
        requires
            self.wf(),
            valid_utf8(matched_text@) ==> decode_utf8(matched_text@).len() <= 254,
        ensures
            (r.0 as int, r.1 as int, r.2 as int, r.3 as int) == window_breakdown(
                self.spec_pattern_chars(),
                self.spec_case_insensitive(),
                matched_text@,
            ),
    {
        let m = self.pattern_chars.len();
        match decode_utf8_bytes(matched_text) {
            None => (0, m as u8, 0, 0),
            Some(text_chars) => {
                let p = fold_chars(&self.pattern_chars, self.case_insensitive);
                let t = fold_chars(&text_chars, self.case_insensitive);
                breakdown_dp(p.as_slice(), t.as_slice())
            },
        }
    }

    /// A cheap test that the pattern cannot match a suffix of `text` within
    /// `budget` errors, by the transposition-aware bit-parallel automaton
    /// over ASCII bytes.  Without edits and case-sensitive it is exact
    /// inequality of the bytes; it answers `false` (no conclusion) when the
    /// budget covers the whole pattern, exceeds 32, or a character of the
    /// pattern or a byte of the text is not ASCII.
    pub fn quick_reject(&self, text: &[u8], budget: usize) -> (r: bool)
        requires
            self.wf(),
        ensures
            budget >= self.spec_pattern_chars().len() ==> !r,
            budget == 0 && !self.spec_case_insensitive() ==> (r <==> text@ != encode_utf8(self.spec_pattern())),
            budget > 0 || self.spec_case_insensitive() ==> (budget > 32 || !ascii_chars(self.spec_pattern_chars())
                || !ascii_bytes(text@) ==> !r),
            (budget > 0 || self.spec_case_insensitive()) && r ==> ascii_bytes(text@) && forall|s: int|
                0 <= s <= text@.len() ==> #[trigger] osa(
                    fold_ascii(self.spec_pattern_chars(), self.spec_case_insensitive()),
                    fold_ascii(ascii_text(text@), self.spec_case_insensitive()).subrange(s, text@.len() as int),
                    self.spec_pattern_chars().len() as int,
                    text@.len() - s,
                ) > budget,
    {
        let m = self.pattern_len;
        if m == 0 || budget >= m {
            return false;
        }
        if budget == 0 && !self.case_insensitive {
            return !bytes_equal(text, self.pattern.as_str().as_bytes());
        }
        if budget > 32 {
            return false;
        }
        if !self.is_ascii {
            return false;
        }
        let ghost p = self.spec_pattern_chars();
        let ghost ci = self.spec_case_insensitive();
        let ghost pp = fold_ascii(p, ci);
        let ghost tt = fold_ascii(ascii_text(text@), ci);
        let d = budget;
        let mut r = filled(33, !0u128);
        let mut old_r = filled(33, !0u128);
        let mut old_old_r = filled(33, !0u128);
        proof {
            assert(row_ok(r@[0], pp, tt, m as int, 0, 0)) by {
                assert forall|j: u128, s: int| (j as int) < m && 0 <= s <= 0 && #[trigger] suffix_cost(pp, tt, s, j, 0)
                    <= 0 implies cleared(r@[0], j) by {
                    assert(suffix_cost(pp, tt, s, j, 0) == j + 1);
                }
            }
        }
        let mut prev_mask: Option<u128> = None;
        let mut i: usize = 1;
        while i <= d
            invariant
                1 <= i <= d + 1,
                d <= 32,
                m <= 64,
                r@.len() == 33,
                forall|k: int| 0 <= k < i ==> row_ok(#[trigger] r@[k], pp, tt, m as int, k, 0),
            decreases d + 1 - i,
        {
            let prev = r[i - 1];
            r.set(i, prev << 1u128);
            proof {
                assert(row_ok(prev, pp, tt, m as int, i - 1, 0));
                assert forall|j: u128, s: int| (j as int) < m && 0 <= s <= 0 && #[trigger] suffix_cost(pp, tt, s, j, 0)
                    <= i implies cleared(prev << 1u128, j) by {
                    assert(suffix_cost(pp, tt, s, j, 0) == j + 1);
                    if j > 0 {
                        let jm = (j - 1) as u128;
                        assert(suffix_cost(pp, tt, s, jm, 0) == j);
                    }
                    bv_shl(prev, j);
                }
                assert(row_ok(r@[i as int], pp, tt, m as int, i as int, 0));
            }
            i = i + 1;
        }
        let mut t: usize = 0;
        while t < text.len()
            invariant
                self.wf(),
                d <= 32,
                d == budget,
                d < m,
                m == p.len(),
                m <= 64,
                p == self.spec_pattern_chars(),
                ci == self.spec_case_insensitive(),
                pp == fold_ascii(p, ci),
                tt == fold_ascii(ascii_text(text@), ci),
                tt.len() == text@.len(),
                (r@[d as int] & self.accept_mask) != 0 ==> forall|s: int|
                    0 <= s <= t ==> #[trigger] osa(pp, tt.subrange(s, text@.len() as int), m as int, t - s) > d,
                forall|j: int| 0 <= j < p.len() ==> is_ascii_char(#[trigger] p[j]),
                budget > 0 || self.spec_case_insensitive(),
                r@.len() == 33,
                old_r@.len() == 33,
                old_old_r@.len() == 33,
                t <= text@.len(),
                forall|k: int| 0 <= k < t ==> #[trigger] text@[k] < 128,
                forall|k: int| 0 <= k <= d ==> row_ok(#[trigger] r@[k], pp, tt, m as int, k, t as int),
                t == 0 ==> prev_mask is None,
                t >= 1 ==> (prev_mask matches Some(x) && mask_for(x, pp, tt, m as int, t - 1)),
                t >= 1 ==> forall|k: int| 0 <= k <= d ==> row_ok(#[trigger] old_r@[k], pp, tt, m as int, k, t - 1),
            decreases text@.len() - t,
        {
            let byte = text[t];
            if byte >= 128 {
                return false;
            }
            let ghost r0 = r@;
            let ghost o0 = old_r@;
            let mut k: usize = 0;
            while k <= d
                invariant
                    k <= d + 1,
                    d <= 32,
                    r@.len() == 33,
                    old_r@.len() == 33,
                    old_old_r@.len() == 33,
                    r@ == r0,
                    o0.len() == 33,
                    forall|q: int| 0 <= q < k ==> #[trigger] old_old_r@[q] == o0[q],
                    forall|q: int| 0 <= q < k ==> #[trigger] old_r@[q] == r0[q],
                    forall|q: int| k <= q < 33 ==> #[trigger] old_r@[q] == o0[q],
                decreases d + 1 - k,
            {
                let x = old_r[k];
                old_old_r.set(k, x);
                let y = r[k];
                old_r.set(k, y);
                k = k + 1;
            }
            proof {
                assert forall|q: int| 0 <= q <= d implies row_ok(#[trigger] old_r@[q], pp, tt, m as int, q, t as int) by {
                    assert(old_r@[q] == r0[q]);
                }
                if t >= 1 {
                    assert forall|q: int| 0 <= q <= d implies row_ok(#[trigger] old_old_r@[q], pp, tt, m as int, q, t - 1) by {
                        assert(old_old_r@[q] == o0[q]);
                    }
                }
            }
            let char_mask = self.byte_masks[byte as usize];
            proof {
                assert(tt[t as int] == (if ci { ascii_lower(byte as char) } else { byte as char }));
                assert forall|j: u128| (j as int) < m && pp[j as int] == tt[t as int] implies #[trigger] cleared(char_mask, j) by {
                    lemma_fold_hits(p[j as int], byte, ci);
                    assert(mask_upto(self.byte_masks@[byte as int], p, p.len() as int, |c: char| byte_hits(c, byte as int, ci)));
                }
                assert(mask_for(char_mask, pp, tt, m as int, t as int));
                assert(row_ok(old_r@[0], pp, tt, m as int, 0, t as int));
            }
            let first = (old_r[0] << 1u128) | char_mask;
            r.set(0, first);
            proof {
                lemma_level0_step(pp, tt, m as int, t as int, old_r@[0], char_mask, first);
            }
            let mut dd: usize = 1;
            while dd <= d
                invariant
                    1 <= dd <= d + 1,
                    d <= 32,
                    m <= 64,
                    d < m,
                    pp.len() == m,
                    t < tt.len(),
                    r@.len() == 33,
                    old_r@.len() == 33,
                    old_old_r@.len() == 33,
                    mask_for(char_mask, pp, tt, m as int, t as int),
                    forall|k: int| 0 <= k <= d ==> row_ok(#[trigger] old_r@[k], pp, tt, m as int, k, t as int),
                    t >= 1 ==> forall|k: int| 0 <= k <= d ==> row_ok(#[trigger] old_old_r@[k], pp, tt, m as int, k, t - 1),
                    t == 0 ==> prev_mask is None,
                    t >= 1 ==> (prev_mask matches Some(x) && mask_for(x, pp, tt, m as int, t - 1)),
                    forall|k: int| 0 <= k < dd ==> row_ok(#[trigger] r@[k], pp, tt, m as int, k, t + 1),
                decreases d + 1 - dd,
            {
                let insert = old_r[dd - 1];
                let delete = r[dd - 1] << 1u128;
                let substitute = old_r[dd - 1] << 1u128;
                let match_d = (old_r[dd] << 1u128) | char_mask;
                let mut new_r = match_d & insert & delete & substitute;
                if let Some(pm) = prev_mask {
                    let trans_valid_mask = char_mask | (pm >> 1u128);
                    let trans = ((old_old_r[dd - 1] << 1u128) | trans_valid_mask) << 1u128;
                    new_r = new_r & trans;
                }
                r.set(dd, new_r);
                proof {
                    assert(row_ok(old_r@[dd as int], pp, tt, m as int, dd as int, t as int));
                    assert(row_ok(old_r@[dd - 1], pp, tt, m as int, dd - 1, t as int));
                    assert(row_ok(r@[dd - 1], pp, tt, m as int, dd - 1, t + 1));
                    if t >= 1 {
                        assert(row_ok(old_old_r@[dd - 1], pp, tt, m as int, dd - 1, t - 1));
                    }
                    lemma_level_step(
                        pp,
                        tt,
                        m as int,
                        dd as int,
                        t as int,
                        old_r@[dd as int],
                        old_r@[dd - 1],
                        r@[dd - 1],
                        old_old_r@[dd - 1],
                        char_mask,
                        prev_mask,
                        new_r,
                    );
                }
                dd = dd + 1;
            }
            proof {
                let k = (m - 1) as u128;
                if (r@[d as int] & self.accept_mask) != 0 {
                    if cleared(r@[d as int], k) {
                        lemma_bit_accept(r@[d as int], k);
                    }
                    assert(row_ok(r@[d as int], pp, tt, m as int, d as int, t + 1));
                    assert forall|s: int| 0 <= s <= t + 1 implies #[trigger] osa(
                        pp,
                        tt.subrange(s, text@.len() as int),
                        m as int,
                        t + 1 - s,
                    ) > d by {
                        assert(suffix_cost(pp, tt, s, k, t + 1) > d);
                    }
                }
            }
            prev_mask = Some(char_mask);
            t = t + 1;
        }
        (r[d] & self.accept_mask) != 0
    }

    /// The edit distance of the pattern and `text_chars` by Myers'
    /// bit-vector algorithm over the pattern's masks, the score kept
    /// within `0..=255`.
    fn compute_edit_distance_myers(&self, text_chars: &[char]) -> (r: u8)
        requires
            self.wf(),
        ensures
            text_chars@.len() == 0 ==> r == self.spec_pattern_chars().len(),
    {
        let m = self.pattern_len;
        let n = text_chars.len();
        if n == 0 {
            return m as u8;
        }
        let mut pv: u128 = !0u128;
        let mut mv: u128 = 0;
        let mut score: u8 = m as u8;
        let mask = 1u128 << ((m - 1) as u128);
        let mut i: usize = 0;
        while i < n
            invariant
                self.wf(),
                n == text_chars@.len(),
                i <= n,
            decreases n - i,
        {
            let text_char = text_chars[i];
            let eq = if (text_char as u32) < 128 {
                !self.byte_masks[(text_char as u32) as usize]
            } else {
                !self.get_mask(text_char)
            };
            let xv = eq | mv;
            let xh = (((eq & pv).wrapping_add(pv)) ^ pv) | eq;
            let ph = mv | !(xh | pv);
            let mh = pv & xh;
            if (ph & mask) != 0 {
                score = score.saturating_add(1);
            }
            if (mh & mask) != 0 {
                score = score.saturating_sub(1);
            }
            let ph_shift = (ph << 1u128) | 1;
            let mh_shift = mh << 1u128;
            pv = mh_shift | !(xv | ph_shift);
            mv = ph_shift & xv;
            i = i + 1;
        }
        score
    }

    /// An edit breakdown from the Myers distance `d` alone: the length
    /// difference is attributed to insertions or deletions as far as `d`
    /// allows and the rest to substitutions (transpositions are not told apart).
    #[allow(dead_code)]
    fn compute_edit_breakdown_fast(&self, text_chars: &[char]) -> (r: (u8, u8, u8, u8))
        requires
            self.wf(),
            text_chars@.len() <= i32::MAX,
        ensures
            text_chars@.len() == 0 ==> r == (0u8, self.spec_pattern_chars().len() as u8, 0u8, 0u8),
            text_chars@.len() > 0 ==> exists|d: u8| r == length_split(text_chars@.len() as int, self.spec_pattern_chars().len() as int, d),
    {
        let m = self.pattern_len;
        let n = text_chars.len();
        if n == 0 {
            return (0, m as u8, 0, 0);
        }
        let distance = self.compute_edit_distance_myers(text_chars);
        if n >= m {
            let diff = ((n - m) % 256) as u8;
            let insertions = if diff < distance {
                diff
            } else {
                distance
            };
            let r = (insertions, 0, distance - insertions, 0);
            assert(r == length_split(n as int, m as int, distance));
            r
        } else {
            let diff = (m - n) as u8;
            let deletions = if diff < distance {
                diff
            } else {
                distance
            };
            let r = (0, deletions, distance - deletions, 0);
            assert(r == length_split(n as int, m as int, distance));
            r
        }
    }

    /// The skip for `byte`: zero when the pattern accounts for it.
    pub fn get_skip(&self, byte: u8) -> (r: usize)
        requires
            self.wf(),
        ensures
            r == skip_of(self.spec_pattern_chars(), self.spec_case_insensitive(), self.spec_limits().max_edits as int, byte as int),
    {
        self.skip_table[byte as usize] as usize
    }

    /// The position of the first byte from `start` on that occurs in the
    /// pattern (that a pattern character accounts for); the text's length
    /// when there is none.
    pub fn find_next_candidate(&self, text: &[u8], start: usize) -> (r: usize)
        requires
            self.wf(),
        ensures
            start >= text@.len() ==> r == text@.len(),
            start < text@.len() ==> start <= r <= text@.len(),
            r < text@.len() ==> hit_before(
                self.spec_pattern_chars(),
                self.spec_case_insensitive(),
                text@[r as int] as int,
                self.spec_pattern_chars().len() as int,
            ),
            forall|q: int|
                start <= q < r && q < text@.len() ==> !hit_before(
                    self.spec_pattern_chars(),
                    self.spec_case_insensitive(),
                    #[trigger] text@[q] as int,
                    self.spec_pattern_chars().len() as int,
                ),
    {
        let ghost p = self.spec_pattern_chars();
        let ghost ci = self.spec_case_insensitive();
        let mut pos = start;
        while pos < text.len()
            invariant
                self.wf(),
                p == self.spec_pattern_chars(),
                ci == self.spec_case_insensitive(),
                start <= pos,
                forall|q: int| start <= q < pos && q < text@.len() ==> !hit_before(p, ci, #[trigger] text@[q] as int, p.len() as int),
            decreases text@.len() - pos,
        {
            let skip = self.skip_table[text[pos] as usize];
            if skip == 0 {
                return pos;
            }
            pos = pos + 1;
        }
        text.len()
    }
}

/// The pattern's characters as the matcher holds them.
pub open spec fn folded_pattern(s: Seq<char>, ci: bool) -> Seq<char> {
    if ci {
        spec_str_lowercase(s)
    } else {
        s
    }
}

/// Several patterns matched side by side, one matcher each.
pub struct MultiBitapMatcher {
    matchers: Vec<BitapMatcher>,
    case_insensitive: bool,
}

impl MultiBitapMatcher {
    /// The matcher of every pattern, in order.
    pub closed spec fn spec_matchers(&self) -> Seq<BitapMatcher> {
        self.matchers@
    }

    pub closed spec fn spec_case_insensitive(&self) -> bool {
        self.case_insensitive
    }

    pub open spec fn wf(&self) -> bool {
        forall|k: int| 0 <= k < self.spec_matchers().len() ==> (#[trigger] self.spec_matchers()[k]).wf()
    }

    /// One matcher per pattern; `None` when there is no pattern or one of
    /// them has no matcher (see [`BitapMatcher::new`]).
    pub fn new(patterns: &[&str], limits: &EditLimits, case_insensitive: bool) -> (r: Option<Self>)
        ensures
            r is Some <==> patterns@.len() > 0 && forall|k: int|
                0 <= k < patterns@.len() ==> 1 <= #[trigger] folded_pattern(patterns@[k]@, case_insensitive).len()
                    <= MAX_MATCHER_LEN,
            r matches Some(mm) ==> {
                &&& mm.wf()
                &&& mm.spec_case_insensitive() == case_insensitive
                &&& mm.spec_matchers().len() == patterns@.len()
                &&& forall|k: int|
                    0 <= k < patterns@.len() ==> {
                        &&& (#[trigger] mm.spec_matchers()[k]).spec_pattern() == patterns@[k]@
                        &&& mm.spec_matchers()[k].spec_pattern_chars() == folded_pattern(patterns@[k]@, case_insensitive)
                        &&& mm.spec_matchers()[k].spec_limits() == *limits
                        &&& mm.spec_matchers()[k].spec_case_insensitive() == case_insensitive
                    }
            },
    {
        if patterns.len() == 0 {
            return None;
        }
        let mut matchers: Vec<BitapMatcher> = Vec::new();
        let mut i: usize = 0;
        while i < patterns.len()
            invariant
                i <= patterns@.len(),
                matchers@.len() == i,
                forall|k: int|
                    0 <= k < i ==> 1 <= #[trigger] folded_pattern(patterns@[k]@, case_insensitive).len() <= MAX_MATCHER_LEN,
                forall|k: int|
                    0 <= k < i ==> {
                        &&& (#[trigger] matchers@[k]).wf()
                        &&& matchers@[k].spec_pattern() == patterns@[k]@
                        &&& matchers@[k].spec_pattern_chars() == folded_pattern(patterns@[k]@, case_insensitive)
                        &&& matchers@[k].spec_limits() == *limits
                        &&& matchers@[k].spec_case_insensitive() == case_insensitive
                    },
            decreases patterns@.len() - i,
        {
            match BitapMatcher::new(patterns[i], *limits, case_insensitive) {
                None => {
                    return None;
                },
                Some(m) => {
                    matchers.push(m);
                },
            }
            i = i + 1;
        }
        Some(MultiBitapMatcher { matchers, case_insensitive })
    }

    /// The breakdown of an optimal alignment of pattern `pattern_index` with the window.
    pub fn breakdown(&self, pattern_index: usize, window: &[u8]) -> (r: (u8, u8, u8, u8))
        requires
            self.wf(),
            pattern_index < self.spec_matchers().len(),
            valid_utf8(window@) ==> decode_utf8(window@).len() <= 254,
        ensures
            (r.0 as int, r.1 as int, r.2 as int, r.3 as int) == window_breakdown(
                self.spec_matchers()[pattern_index as int].spec_pattern_chars(),
                self.spec_matchers()[pattern_index as int].spec_case_insensitive(),
                window@,
            ),
    {
        assert(self.spec_matchers()[pattern_index as int].wf());
        self.matchers[pattern_index].compute_exact_edit_breakdown(window)
    }

    /// The number of patterns.
    pub fn pattern_count(&self) -> (r: usize)
        ensures
            r == self.spec_matchers().len(),
    {
        self.matchers.len()
    }

    /// Pattern `index` as given, if there is one.
    pub fn pattern(&self, index: usize) -> (r: Option<&str>)
        ensures
            r is Some <==> index < self.spec_matchers().len(),
            r matches Some(s) ==> s@ == self.spec_matchers()[index as int].spec_pattern(),
    {
        if index < self.matchers.len() {
            Some(self.matchers[index].pattern())
        } else {
            None
        }
    }
}

/// The place of a match's score: by its edits and by how many more
/// insertions than deletions it has (none when not more), the two things the
/// score depends on.
pub open spec fn bitap_rank(finished: Seq<Vec<u32>>, m: EditMatch) -> int {
    rank_in(
        finished,
        edits_of(m),
        if m.insertions > m.deletions {
            m.insertions - m.deletions
        } else {
            0
        },
    )
}

fn bitap_score(finished: &Vec<Vec<u32>>, m: &EditMatch) -> (r: u32)
    ensures
        r as int == bitap_rank(finished@, *m),
{
    let e = m.insertions as usize + m.deletions as usize + m.substitutions as usize + m.swaps as usize;
    let y = if m.insertions > m.deletions {
        (m.insertions - m.deletions) as usize
    } else {
        0
    };
    rank_lookup(finished, e, y)
}

/// Records `m`: a new span is added; for a span already present, `m` takes the
/// place of the recorded match when its score is placed strictly higher.
fn record_bitap(matches: &mut Vec<EditMatch>, m: EditMatch, finished: &Vec<Vec<u32>>)
    requires
        forall|i: int, j: int| 0 <= i < j < old(matches)@.len() ==> !same_span(#[trigger] old(matches)@[i], #[trigger] old(matches)@[j]),
    ensures
        forall|i: int, j: int| 0 <= i < j < final(matches)@.len() ==> !same_span(#[trigger] final(matches)@[i], #[trigger] final(matches)@[j]),
        forall|i: int| 0 <= i < final(matches)@.len() ==> #[trigger] final(matches)@[i] == m || old(matches)@.contains(final(matches)@[i]),
        (forall|i: int| 0 <= i < old(matches)@.len() ==> !same_span(#[trigger] old(matches)@[i], m)) ==> final(matches)@ == old(
            matches,
        )@.push(m),
        final(matches)@.len() >= old(matches)@.len(),
        forall|i: int| 0 <= i < old(matches)@.len() ==> same_span(#[trigger] final(matches)@[i], old(matches)@[i]),
        exists|i: int| 0 <= i < final(matches)@.len() && same_span(#[trigger] final(matches)@[i], m),
        forall|q: int|
            0 <= q < old(matches)@.len() && same_span(#[trigger] old(matches)@[q], m) ==> final(matches)@ == old(matches)@.update(
                q,
                if bitap_rank(finished@, m) > bitap_rank(finished@, old(matches)@[q]) {
                    m
                } else {
                    old(matches)@[q]
                },
            ),
{
    let ghost orig = matches@;
    let mut q: usize = 0;
    while q < matches.len()
        invariant
            0 <= q <= matches@.len(),
            matches@ == orig,
            orig == old(matches)@,
            forall|i: int, j: int| 0 <= i < j < orig.len() ==> !same_span(#[trigger] orig[i], #[trigger] orig[j]),
            forall|i: int| 0 <= i < q ==> !same_span(#[trigger] matches@[i], m),
        decreases matches@.len() - q,
    {
        if matches[q].start == m.start && matches[q].end == m.end {
            let existing = matches[q];
            let better = bitap_score(finished, &m) > bitap_score(finished, &existing);
            if better {
                matches.set(q, m);
            }
            proof {
                assert forall|i: int| 0 <= i < matches@.len() implies #[trigger] matches@[i] == m || orig.contains(matches@[i]) by {
                    if i != q {
                        assert(matches@[i] == orig[i]);
                    } else if !better {
                        assert(matches@[i] == orig[i]);
                    }
                }
                assert(same_span(orig[q as int], m));
                assert forall|q2: int| 0 <= q2 < orig.len() && same_span(#[trigger] orig[q2], m) implies q2 == q by {
                    if q2 < q {
                        assert(!same_span(matches@[q2], m));
                    } else if q2 > q {
                        assert(!same_span(orig[q as int], orig[q2]));
                    }
                }
                assert(matches@ =~= orig.update(
                    q as int,
                    if bitap_rank(finished@, m) > bitap_rank(finished@, orig[q as int]) {
                        m
                    } else {
                        orig[q as int]
                    },
                ));
                assert(same_span(matches@[q as int], m));
            }
            return;
        }
        q = q + 1;
    }
    matches.push(m);
    proof {
        assert forall|i: int| 0 <= i < matches@.len() implies #[trigger] matches@[i] == m || orig.contains(matches@[i]) by {
            if i < orig.len() {
                assert(matches@[i] == orig[i]);
            }
        }
        assert(same_span(matches@[orig.len() as int], m));
    }
}

/// Similarity scores replaced by their places in one common order (equal
/// scores share a place).  For a match of `e` edits with `y` more insertions
/// than deletions (zero when not more), `finished[e][y]` is the place of its score;
/// `level[d]` is the place of the best score a match with `d` edits can have;
/// `threshold` is the place of the threshold.  A missing entry counts as place
/// zero.
pub struct ScoreRanks {
    pub threshold: u32,
    pub finished: Vec<Vec<u32>>,
    pub level: Vec<u32>,
}

/// The place of the best score at `d` edits, zero where the table has none.
pub open spec fn level_rank(level: Seq<u32>, d: int) -> int {
    if 0 <= d < level.len() {
        level[d] as int
    } else {
        0
    }
}

fn level_lookup(level: &Vec<u32>, d: usize) -> (r: u32)
    ensures
        r as int == level_rank(level@, d as int),
{
    if d < level.len() {
        level[d]
    } else {
        0
    }
}

/// `b` is the byte offset of one of the characters of `t`.
pub open spec fn char_start(t: Seq<char>, b: int) -> bool {
    exists|k: int| 0 <= k < t.len() && #[trigger] byte_offset(t, k) == b
}

/// The edit counts of a match.
pub open spec fn counts(m: EditMatch) -> (int, int, int, int) {
    (m.insertions as int, m.deletions as int, m.substitutions as int, m.swaps as int)
}

/// Number of characters in windows the searches examine: at most the pattern
/// length plus the edit budget (capped at the pattern length) plus one.
pub open spec fn window_cap(p: int, max_edits: int) -> int {
    p + (if max_edits < p {
        max_edits
    } else {
        p
    }) + 1
}

impl BitapMatcher {
    /// `m` is a match the searches may report in the text with bytes `b`: a
    /// span of `b` whose counts are the exact breakdown of the span, within
    /// the edit budget and with a score placed at or above the threshold.
    pub open spec fn reported(&self, b: Seq<u8>, ranks: ScoreRanks, m: EditMatch) -> bool {
        &&& m.start <= m.end <= b.len()
        &&& counts(m) == window_breakdown(self.spec_pattern_chars(), self.spec_case_insensitive(), b.subrange(m.start as int, m.end as int))
        &&& edits_of(m) <= self.spec_limits().max_edits
        &&& bitap_rank(ranks.finished@, m) >= ranks.threshold
    }

    /// The match over bytes `start..end` of `b` with the exact breakdown of
    /// that window.
    pub open spec fn window_match(&self, b: Seq<u8>, start: int, end: int) -> EditMatch {
        let bd = window_breakdown(self.spec_pattern_chars(), self.spec_case_insensitive(), b.subrange(start, end));
        EditMatch {
            start: start as usize,
            end: end as usize,
            insertions: bd.0 as u8,
            deletions: bd.1 as u8,
            substitutions: bd.2 as u8,
            swaps: bd.3 as u8,
        }
    }

    /// The quick check with budget `budget` cannot rule window `w` out (as
    /// far as its contract says).
    pub open spec fn passes_quick_check(&self, w: Seq<u8>, budget: int) -> bool {
        ||| budget >= self.spec_pattern_chars().len()
        ||| (budget == 0 && !self.spec_case_insensitive() && w == encode_utf8(self.spec_pattern()))
        ||| ((budget > 0 || self.spec_case_insensitive()) && (budget > 32 || !ascii_chars(self.spec_pattern_chars())
            || !ascii_bytes(w)))
    }

    /// The breakdown of window `bytes[start..end]` as a match, when no quick
    /// check with budget `reject_budget` rules it out, its edits are at most
    /// `limit`, and its score is placed at or above the threshold.
    fn try_window(
        &self,
        bytes: &[u8],
        start: usize,
        end: usize,
        reject_budget: usize,
        limit: usize,
        ranks: &ScoreRanks,
    ) -> (r: Option<EditMatch>)
        requires
            self.wf(),
            start <= end <= bytes@.len(),
            valid_utf8(bytes@.subrange(start as int, end as int)) ==> decode_utf8(
                bytes@.subrange(start as int, end as int),
            ).len() <= 254,
            limit <= self.spec_limits().max_edits,
        ensures
            r matches Some(m) ==> {
                &&& m.start == start
                &&& m.end == end
                &&& self.reported(bytes@, *ranks, m)
                &&& edits_of(m) <= limit
                &&& m == self.window_match(bytes@, start as int, end as int)
            },
            self.passes_quick_check(bytes@.subrange(start as int, end as int), reject_budget as int) ==> (r is Some <==> (
            edits_of(self.window_match(bytes@, start as int, end as int)) <= limit && bitap_rank(
                ranks.finished@,
                self.window_match(bytes@, start as int, end as int),
            ) >= ranks.threshold)),
    {
        let window = vstd::slice::slice_subrange(bytes, start, end);
        if self.quick_reject(window, reject_budget) {
            return None;
        }
        let (ins, del, sub, swp) = self.compute_exact_edit_breakdown(window);
        let total: u16 = ins as u16 + del as u16 + sub as u16 + swp as u16;
        if total as usize > limit {
            return None;
        }
        let m = EditMatch { start, end, insertions: ins, deletions: del, substitutions: sub, swaps: swp };
        if bitap_score(&ranks.finished, &m) >= ranks.threshold {
            Some(m)
        } else {
            None
        }
    }
}

/// `x` lowercased as the searches read the text: the first character of its
/// Unicode lowercase mapping, or `x` itself when that is empty.
pub open spec fn first_lower(x: char) -> char {
    match first_of(spec_char_lowercase(x)) {
        Some(l) => l,
        None => x,
    }
}

pub(crate) fn lower_first(x: char) -> (r: char)
    ensures
        r == first_lower(x),
{
    match first_lowercase(x) {
        Some(l) => l,
        None => x,
    }
}

/// A fresh shift-or state: one vector per edit count `0..=eff`, where count
/// `d` starts with its first `d` pattern positions reached by deletions.
fn fresh_states(eff: usize) -> (r: Vec<u128>)
    requires
        eff < usize::MAX,
    ensures
        r@.len() == eff + 1,
        r@[0] == !0u128,
{
    let mut r: Vec<u128> = Vec::new();
    r.push(!0u128);
    let mut d: usize = 1;
    while d <= eff
        invariant
            1 <= d <= eff + 1,
            eff < usize::MAX,
            r@.len() == d,
            r@[0] == !0u128,
        decreases eff + 1 - d,
    {
        let prev = r[d - 1];
        r.push(prev << 1);
        d = d + 1;
    }
    r
}

impl BitapMatcher {
    /// All matches of the pattern in `text`, at most one per byte span.  The
    /// shift-or automaton (with insertions, deletions and substitutions) is
    /// run over the characters; wherever it reaches the end of the pattern
    /// with `d` edits and the best score at `d` edits reaches the threshold,
    /// every start from `len + d` characters back to `len - d - 1` characters
    /// back is checked: the window's exact breakdown is kept when its edits
    /// are at most `d` and its score reaches the threshold (of two matches of
    /// one span, the one whose score is placed higher).  For a text shorter
    /// than the pattern, the automaton then deletes pattern characters and
    /// windows from the text's start positions to its end are checked the
    /// same way against the whole budget.
    pub fn find_all(&self, text: &str, ranks: &ScoreRanks) -> (r: Vec<EditMatch>)
        requires
            self.wf(),
        ensures
            forall|i: int, j: int| 0 <= i < j < r@.len() ==> !same_span(#[trigger] r@[i], #[trigger] r@[j]),
            forall|i: int| 0 <= i < r@.len() ==> self.reported(encode_utf8(text@), *ranks, #[trigger] r@[i]),
            forall|i: int| 0 <= i < r@.len() ==> (#[trigger] r@[i]).start < r@[i].end && char_start(text@, r@[i].start as int),
            text@.len() == 0 ==> r@.len() == 0,
            forall|s: int|
                #[trigger] self.exact_at(text@, s) && self.exact_wanted(*ranks) ==> has_span(
                    r@,
                    byte_offset(text@, s),
                    byte_offset(text@, s + self.spec_pattern_chars().len()),
                ),
    {
        let p_len = self.pattern_len;
        let max_edits = self.limits.max_edits as usize;
        let eff = if max_edits < p_len {
            max_edits
        } else {
            p_len
        };
        let ghost t = text@;
        let (cs, offs) = decode_text(text);
        let n = cs.len();
        let bytes = text.as_bytes();
        let mut matches: Vec<EditMatch> = Vec::new();
        if n == 0 {
            return matches;
        }
        proof {
            lemma_offset_bounds(t, n as int);
        }
        let mut r = fresh_states(eff);
        let mut old_r = ones_states(eff);
        let mut char_idx: usize = 0;
        while char_idx < n
            invariant
                self.wf(),
                p_len == self.spec_pattern_chars().len(),
                max_edits == self.spec_limits().max_edits,
                eff <= max_edits,
                eff <= p_len,
                window_cap(p_len as int, max_edits as int) <= 254,
                t == text@,
                cs@ == t,
                n == t.len(),
                offsets_of(t, offs@),
                bytes@ == encode_utf8(t),
                0 <= char_idx <= n,
                r@.len() == eff + 1,
                old_r@.len() == eff + 1,
                forall|i: int, j: int| 0 <= i < j < matches@.len() ==> !same_span(#[trigger] matches@[i], #[trigger] matches@[j]),
                forall|i: int| 0 <= i < matches@.len() ==> self.reported(bytes@, *ranks, #[trigger] matches@[i]),
                forall|i: int| 0 <= i < matches@.len() ==> (#[trigger] matches@[i]).deletions <= max_edits,
                forall|i: int| 0 <= i < matches@.len() ==> (#[trigger] matches@[i]).start < matches@[i].end && char_start(t, matches@[i].start as int),
                forall|j: u128|
                    j < 128 && j < char_idx && j < p_len && exact_run(self.spec_pattern_chars(), t, self.spec_case_insensitive(), char_idx as int, j as int)
                        ==> #[trigger] cleared(r@[0], j),
                self.exact_found(t, *ranks, matches@, char_idx as int),
            decreases n - char_idx,
        {
            let raw = cs[char_idx];
            let tc = if self.case_insensitive {
                lower_first(raw)
            } else {
                raw
            };
            let char_mask = self.get_mask(tc);
            let ghost r0 = r@[0];
            std::mem::swap(&mut r, &mut old_r);
            r.set(0, (old_r[0] << 1) | char_mask);
            let ghost v0 = r@[0];
            proof {
                let p = self.spec_pattern_chars();
                let ci = self.spec_case_insensitive();
                assert(tc == text_fold(t[char_idx as int], ci));
                assert forall|j: u128|
                    j < 128 && j < char_idx + 1 && j < p_len && exact_run(p, t, ci, char_idx + 1, j as int) implies #[trigger] cleared(
                    v0,
                    j,
                ) by {
                    lemma_exact_run_back(p, t, ci, char_idx as int, j as int);
                    assert(cleared(char_mask, j));
                    if j > 0 {
                        let jm = (j - 1) as u128;
                        assert(exact_run(p, t, ci, char_idx as int, jm as int));
                        assert(cleared(r0, jm));
                    }
                    lemma_run_bit(r0, char_mask, j);
                }
            }
            let mut d: usize = 1;
            while d <= eff
                invariant
                    1 <= d <= eff + 1,
                    eff <= 128,
                    r@.len() == eff + 1,
                    old_r@.len() == eff + 1,
                    r@[0] == v0,
                decreases eff + 1 - d,
            {
                let insert = old_r[d - 1];
                let delete = r[d - 1] << 1;
                let substitute = old_r[d - 1] << 1;
                let match_d = (old_r[d] << 1) | char_mask;
                r.set(d, match_d & insert & delete & substitute);
                d = d + 1;
            }
            let end_byte = offs[char_idx + 1];
            let ghost sh: int = char_idx + 1 - p_len;
            let ghost ends_here = self.exact_at(t, sh) && self.exact_wanted(*ranks);
            proof {
                if ends_here {
                    let p = self.spec_pattern_chars();
                    let k = (p_len - 1) as u128;
                    assert forall|i: int| 0 <= i <= k implies #[trigger] text_fold(t[char_idx + 1 - 1 - k + i], false) == p[i] by {
                        assert(char_idx + 1 - 1 - k + i == sh + i);
                        assert(t[sh + i] == p[i]);
                    }
                    assert(exact_run(p, t, false, char_idx + 1, k as int));
                    assert(cleared(v0, k));
                    lemma_bit_accept(v0, k);
                }
            }
            let mut d2: usize = 0;
            while d2 <= eff
                invariant
                    self.wf(),
                    p_len == self.spec_pattern_chars().len(),
                    max_edits == self.spec_limits().max_edits,
                    eff <= max_edits,
                    eff <= p_len,
                    window_cap(p_len as int, max_edits as int) <= 254,
                    t == text@,
                    n == t.len(),
                    offsets_of(t, offs@),
                    bytes@ == encode_utf8(t),
                    char_idx < n,
                    end_byte == byte_offset(t, char_idx + 1),
                    0 <= d2 <= eff + 1,
                    r@.len() == eff + 1,
                    forall|i: int, j: int| 0 <= i < j < matches@.len() ==> !same_span(#[trigger] matches@[i], #[trigger] matches@[j]),
                    forall|i: int| 0 <= i < matches@.len() ==> self.reported(bytes@, *ranks, #[trigger] matches@[i]),
                    forall|i: int| 0 <= i < matches@.len() ==> (#[trigger] matches@[i]).deletions <= max_edits,
                forall|i: int| 0 <= i < matches@.len() ==> (#[trigger] matches@[i]).start < matches@[i].end && char_start(t, matches@[i].start as int),
                    r@[0] == v0,
                    sh == char_idx + 1 - p_len,
                    ends_here == (self.exact_at(t, sh) && self.exact_wanted(*ranks)),
                    ends_here ==> (v0 & self.accept_mask) == 0,
                    self.exact_found(t, *ranks, matches@, char_idx as int),
                    ends_here && d2 > 0 ==> has_span(matches@, byte_offset(t, sh), byte_offset(t, sh + p_len)),
                decreases eff + 1 - d2,
            {
                if (r[d2] & self.accept_mask) == 0 && level_lookup(&ranks.level, d2) >= ranks.threshold {
                    let min_start_char = if char_idx >= p_len + d2 {
                        char_idx - (p_len + d2)
                    } else {
                        0
                    };
                    let back = if p_len >= d2 + 1 {
                        p_len - (d2 + 1)
                    } else {
                        0
                    };
                    let max_start_char = if char_idx >= back {
                        char_idx - back
                    } else {
                        0
                    };
                    let mut start_char = min_start_char;
                    while start_char <= max_start_char
                        invariant
                            self.wf(),
                            p_len == self.spec_pattern_chars().len(),
                            max_edits == self.spec_limits().max_edits,
                            d2 <= eff,
                            eff <= max_edits,
                            eff <= p_len,
                            window_cap(p_len as int, max_edits as int) <= 254,
                            t == text@,
                            n == t.len(),
                            offsets_of(t, offs@),
                            bytes@ == encode_utf8(t),
                            char_idx < n,
                            max_start_char <= char_idx,
                            min_start_char + p_len + d2 >= char_idx,
                            min_start_char <= start_char,
                            end_byte == byte_offset(t, char_idx + 1),
                            forall|i: int, j: int| 0 <= i < j < matches@.len() ==> !same_span(#[trigger] matches@[i], #[trigger] matches@[j]),
                            forall|i: int| 0 <= i < matches@.len() ==> self.reported(bytes@, *ranks, #[trigger] matches@[i]),
                            forall|i: int| 0 <= i < matches@.len() ==> (#[trigger] matches@[i]).deletions <= max_edits,
                forall|i: int| 0 <= i < matches@.len() ==> (#[trigger] matches@[i]).start < matches@[i].end && char_start(t, matches@[i].start as int),
                            sh == char_idx + 1 - p_len,
                            ends_here == (self.exact_at(t, sh) && self.exact_wanted(*ranks)),
                            self.exact_found(t, *ranks, matches@, char_idx as int),
                            ends_here && d2 > 0 ==> has_span(matches@, byte_offset(t, sh), byte_offset(t, sh + p_len)),
                            ends_here && d2 == 0 ==> sh <= max_start_char,
                            ends_here && d2 == 0 && sh < start_char ==> has_span(matches@, byte_offset(t, sh), byte_offset(t, sh + p_len)),
                        decreases max_start_char + 1 - start_char,
                    {
                        let start_byte = offs[start_char];
                        proof {
                            lemma_window_bytes(t, start_char as int, char_idx + 1);
                        }
                        proof {
                            lemma_offset_strict(t, start_char as int, char_idx + 1);
                        }
                        proof {
                            if ends_here && d2 == 0 && start_char == sh {
                                self.lemma_exact_window_zero(t, sh);
                                lemma_window_bytes(t, sh, sh + p_len);
                                assert(end_byte == byte_offset(t, sh + p_len));
                            }
                        }
                        if let Some(m) = self.try_window(bytes, start_byte, end_byte, d2, d2, ranks) {
                            let ghost old_m = matches@;
                            record_bitap(&mut matches, m, &ranks.finished);
                            proof {
                                assert forall|s2: int|
                                    #[trigger] self.exact_at(t, s2) && self.exact_wanted(*ranks) && s2 + p_len <= char_idx implies has_span(
                                    matches@,
                                    byte_offset(t, s2),
                                    byte_offset(t, s2 + p_len),
                                ) by {
                                    lemma_spans_kept(old_m, matches@, byte_offset(t, s2), byte_offset(t, s2 + p_len));
                                }
                                if ends_here && (d2 > 0 || sh < start_char) {
                                    lemma_spans_kept(old_m, matches@, byte_offset(t, sh), byte_offset(t, sh + p_len));
                                }
                                if ends_here && d2 == 0 && start_char == sh {
                                    let w = choose|w: int| 0 <= w < matches@.len() && same_span(#[trigger] matches@[w], m);
                                    assert(matches@[w].start == byte_offset(t, sh) && matches@[w].end == byte_offset(t, sh + p_len));
                                }
                            }
                            proof {
                                assert(byte_offset(t, start_char as int) == m.start);
                                assert forall|i: int| 0 <= i < matches@.len() implies (#[trigger] matches@[i]).start < matches@[i].end
                                    && char_start(t, matches@[i].start as int) by {
                                    if matches@[i] != m {
                                        let w = choose|w: int| 0 <= w < old_m.len() && old_m[w] == matches@[i];
                                        assert(old_m[w].start < old_m[w].end && char_start(t, old_m[w].start as int));
                                    }
                                }
                            }
                        }
                        start_char = start_char + 1;
                    }
                }
                d2 = d2 + 1;
            }
            char_idx = char_idx + 1;
        }
        if n < p_len {
            let chars_short = p_len - n;
            let rounds = if chars_short < eff {
                chars_short
            } else {
                eff
            };
            let mut round: usize = 0;
            while round < rounds
                invariant
                    self.wf(),
                    p_len == self.spec_pattern_chars().len(),
                    max_edits == self.spec_limits().max_edits,
                    eff <= max_edits,
                    eff <= p_len,
                    n < p_len,
                    0 < n,
                    window_cap(p_len as int, max_edits as int) <= 254,
                    t == text@,
                    n == t.len(),
                    offsets_of(t, offs@),
                    bytes@ == encode_utf8(t),
                    r@.len() == eff + 1,
                    old_r@.len() == eff + 1,
                    forall|i: int, j: int| 0 <= i < j < matches@.len() ==> !same_span(#[trigger] matches@[i], #[trigger] matches@[j]),
                    forall|i: int| 0 <= i < matches@.len() ==> self.reported(bytes@, *ranks, #[trigger] matches@[i]),
                    forall|i: int| 0 <= i < matches@.len() ==> (#[trigger] matches@[i]).deletions <= max_edits,
                forall|i: int| 0 <= i < matches@.len() ==> (#[trigger] matches@[i]).start < matches@[i].end && char_start(t, matches@[i].start as int),
                decreases rounds - round,
            {
                std::mem::swap(&mut r, &mut old_r);
                r.set(0, old_r[0]);
                let mut d: usize = 1;
                while d <= eff
                    invariant
                        1 <= d <= eff + 1,
                        eff <= 128,
                        r@.len() == eff + 1,
                        old_r@.len() == eff + 1,
                    decreases eff + 1 - d,
                {
                    let delete = old_r[d - 1] << 1;
                    r.set(d, old_r[d] & delete);
                    d = d + 1;
                }
                let text_len = offs[n];
                let mut d2: usize = 0;
                while d2 <= eff
                    invariant
                        self.wf(),
                        p_len == self.spec_pattern_chars().len(),
                        max_edits == self.spec_limits().max_edits,
                        eff <= max_edits,
                        eff <= p_len,
                        n < p_len,
                        0 < n,
                        window_cap(p_len as int, max_edits as int) <= 254,
                        t == text@,
                        n == t.len(),
                        offsets_of(t, offs@),
                        bytes@ == encode_utf8(t),
                        text_len == byte_offset(t, n as int),
                        0 <= d2 <= eff + 1,
                        r@.len() == eff + 1,
                        forall|i: int, j: int| 0 <= i < j < matches@.len() ==> !same_span(#[trigger] matches@[i], #[trigger] matches@[j]),
                        forall|i: int| 0 <= i < matches@.len() ==> self.reported(bytes@, *ranks, #[trigger] matches@[i]),
                        forall|i: int| 0 <= i < matches@.len() ==> (#[trigger] matches@[i]).deletions <= max_edits,
                forall|i: int| 0 <= i < matches@.len() ==> (#[trigger] matches@[i]).start < matches@[i].end && char_start(t, matches@[i].start as int),
                    decreases eff + 1 - d2,
                {
                    if (r[d2] & self.accept_mask) == 0 && level_lookup(&ranks.level, d2) >= ranks.threshold {
                        let back = if p_len >= d2 + 1 {
                            p_len - (d2 + 1)
                        } else {
                            0
                        };
                        let min_start_char = if n >= back {
                            n - back
                        } else {
                            0
                        };
                        let last = if min_start_char < n - 1 {
                            min_start_char
                        } else {
                            n - 1
                        };
                        let mut start_char: usize = 0;
                        while start_char <= last
                            invariant
                                self.wf(),
                                p_len == self.spec_pattern_chars().len(),
                                max_edits == self.spec_limits().max_edits,
                                n < p_len,
                                last < n,
                                window_cap(p_len as int, max_edits as int) <= 254,
                                t == text@,
                                n == t.len(),
                                offsets_of(t, offs@),
                                bytes@ == encode_utf8(t),
                                text_len == byte_offset(t, n as int),
                                forall|i: int, j: int| 0 <= i < j < matches@.len() ==> !same_span(#[trigger] matches@[i], #[trigger] matches@[j]),
                                forall|i: int| 0 <= i < matches@.len() ==> self.reported(bytes@, *ranks, #[trigger] matches@[i]),
                                forall|i: int| 0 <= i < matches@.len() ==> (#[trigger] matches@[i]).deletions <= max_edits,
                forall|i: int| 0 <= i < matches@.len() ==> (#[trigger] matches@[i]).start < matches@[i].end && char_start(t, matches@[i].start as int),
                            decreases last + 1 - start_char,
                        {
                            let start_byte = offs[start_char];
                            proof {
                                lemma_window_bytes(t, start_char as int, n as int);
                            }
                            proof {
                                lemma_offset_strict(t, start_char as int, n as int);
                            }
                            if let Some(m) = self.try_window(bytes, start_byte, text_len, max_edits, max_edits, ranks) {
                                let ghost old_m = matches@;
                                record_bitap(&mut matches, m, &ranks.finished);
                                proof {
                                    assert(byte_offset(t, start_char as int) == m.start);
                                    assert forall|i: int| 0 <= i < matches@.len() implies (#[trigger] matches@[i]).start < matches@[i].end
                                        && char_start(t, matches@[i].start as int) by {
                                        if matches@[i] != m {
                                            let w = choose|w: int| 0 <= w < old_m.len() && old_m[w] == matches@[i];
                                            assert(old_m[w].start < old_m[w].end && char_start(t, old_m[w].start as int));
                                        }
                                    }
                                }
                            }
                            start_char = start_char + 1;
                        }
                    }
                    d2 = d2 + 1;
                }
                round = round + 1;
            }
        }
        matches
    }
}

/// The shortest match the best-match selection keeps: the pattern length less
/// the edit budget, or zero.
pub open spec fn min_match_len(p: int, max_edits: int) -> int {
    if p > max_edits {
        p - max_edits
    } else {
        0
    }
}

/// The character of `t` at byte offset `b` equals `c0` (ignoring ASCII case
/// when `ci`).
/// Character `x` is `c0`, up to ASCII case when `ci`.
pub open spec fn char_agrees(x: char, c0: char, ci: bool) -> bool {
    if ci {
        ascii_lower(x) == ascii_lower(c0)
    } else {
        x == c0
    }
}

pub open spec fn starts_with_char(t: Seq<char>, b: int, c0: char, ci: bool) -> bool {
    exists|k: int|
        0 <= k < t.len() && #[trigger] byte_offset(t, k) == b && (if ci {
            ascii_lower(t[k]) == ascii_lower(c0)
        } else {
            t[k] == c0
        })
}

/// The index of the character at byte offset `b`, if one starts there.
fn char_index_at(offs: &Vec<usize>, n: usize, b: usize) -> (r: Option<usize>)
    requires
        n < offs@.len(),
    ensures
        r matches Some(k) ==> k < n && offs@[k as int] == b,
        r is None ==> forall|k: int| 0 <= k < n ==> offs@[k] != b,
{
    let mut k: usize = 0;
    while k < n
        invariant
            0 <= k <= n,
            n < offs@.len(),
            forall|j: int| 0 <= j < k ==> offs@[j] != b,
        decreases n - k,
    {
        if offs[k] == b {
            return Some(k);
        }
        k = k + 1;
    }
    None
}

/// `a` goes before `b` when ordering by score, highest first, then by start.
pub open spec fn ranked_before(finished: Seq<Vec<u32>>, max_edits: u8, a: EditMatch, b: EditMatch) -> bool {
    bitap_rank(finished, a) > bitap_rank(finished, b) || (bitap_rank(finished, a)
        == bitap_rank(finished, b) && a.start < b.start)
}

/// `ms` ordered by score, highest first, then by start, keeping the order of ties.
fn sort_by_score(ms: &Vec<EditMatch>, finished: &Vec<Vec<u32>>, max_edits: u8) -> (r: Vec<EditMatch>)
    requires
        forall|i: int| 0 <= i < ms@.len() ==> (#[trigger] ms@[i]).deletions <= max_edits,
    ensures
        r@.len() == ms@.len(),
        forall|a: int| 0 <= a < r@.len() ==> ms@.contains(#[trigger] r@[a]),
        forall|a: int, b: int| 0 <= a < b < r@.len() ==> !ranked_before(finished@, max_edits, #[trigger] r@[b], #[trigger] r@[a]),
{
    let mut sorted: Vec<EditMatch> = Vec::new();
    let mut i: usize = 0;
    while i < ms.len()
        invariant
            0 <= i <= ms@.len(),
            sorted@.len() == i,
            forall|j: int| 0 <= j < ms@.len() ==> (#[trigger] ms@[j]).deletions <= max_edits,
            forall|a: int| 0 <= a < sorted@.len() ==> ms@.contains(#[trigger] sorted@[a]),
            forall|a: int, b: int| 0 <= a < b < sorted@.len() ==> !ranked_before(finished@, max_edits, #[trigger] sorted@[b], #[trigger] sorted@[a]),
        decreases ms@.len() - i,
    {
        let x = ms[i];
        assert(ms@[i as int] == x);
        let rx = bitap_score(finished, &x);
        let mut p: usize = sorted.len();
        let mut done = false;
        while p > 0 && !done
            invariant
                0 <= p <= sorted@.len(),
                rx as int == bitap_rank(finished@, x),
                forall|a: int| 0 <= a < sorted@.len() ==> ms@.contains(#[trigger] sorted@[a]),
                forall|j: int| 0 <= j < ms@.len() ==> (#[trigger] ms@[j]).deletions <= max_edits,
                forall|a: int| p <= a < sorted@.len() ==> ranked_before(finished@, max_edits, x, #[trigger] sorted@[a]),
                done ==> p > 0 && !ranked_before(finished@, max_edits, x, sorted@[p - 1]),
            decreases p + (if done {
                0int
            } else {
                1int
            }),
        {
            let y = sorted[p - 1];
            assert(ms@.contains(sorted@[p - 1]));
            let ry = bitap_score(finished, &y);
            if rx > ry || (rx == ry && x.start < y.start) {
                p = p - 1;
            } else {
                done = true;
            }
        }
        let ghost before = sorted@;
        sorted.insert(p, x);
        proof {
            assert(sorted@ == before.insert(p as int, x));
            assert forall|a: int, b: int| 0 <= a < b < sorted@.len() implies !ranked_before(finished@, max_edits, #[trigger] sorted@[b], #[trigger] sorted@[a]) by {
                if b < p {
                } else if b == p {
                    if a < p - 1 {
                        assert(!ranked_before(finished@, max_edits, before[p - 1], before[a]));
                    }
                } else if a < p {
                    assert(sorted@[b] == before[b - 1]);
                    if b - 1 >= p {
                        assert(ranked_before(finished@, max_edits, x, before[b - 1]));
                    }
                } else if a == p {
                    assert(sorted@[b] == before[b - 1]);
                } else {
                    assert(sorted@[a] == before[a - 1]);
                    assert(sorted@[b] == before[b - 1]);
                }
            }
            assert forall|a: int| 0 <= a < sorted@.len() implies ms@.contains(#[trigger] sorted@[a]) by {
                if a < p {
                    assert(sorted@[a] == before[a]);
                } else if a > p {
                    assert(sorted@[a] == before[a - 1]);
                }
            }
        }
        i = i + 1;
    }
    sorted
}

impl BitapMatcher {
    /// The matches of `find_all` that are at least as long (in bytes) as the
    /// pattern length less the budget (and, with `require_first_char`, start
    /// with the pattern's first character, ignoring ASCII case when
    /// case-insensitive), chosen greedily from the highest score down (ties
    /// by start) so that none overlaps another, in order of start.
    pub fn find_best_non_overlapping(&self, text: &str, ranks: &ScoreRanks, require_first_char: bool) -> (r: Vec<
        EditMatch,
    >)
        requires
            self.wf(),
        ensures
            forall|i: int| 0 <= i < r@.len() ==> self.reported(encode_utf8(text@), *ranks, #[trigger] r@[i]),
            forall|i: int|
                0 <= i < r@.len() ==> (#[trigger] r@[i]).end - r@[i].start >= min_match_len(
                    self.spec_pattern_chars().len() as int,
                    self.spec_limits().max_edits as int,
                ),
            require_first_char ==> forall|i: int|
                0 <= i < r@.len() ==> starts_with_char(
                    text@,
                    (#[trigger] r@[i]).start as int,
                    self.spec_pattern_chars()[0],
                    self.spec_case_insensitive(),
                ),
            forall|i: int| 0 <= i < r@.len() ==> (#[trigger] r@[i]).start < r@[i].end,
            forall|i: int, j: int| 0 <= i < j < r@.len() ==> (#[trigger] r@[i]).end <= (#[trigger] r@[j]).start,
            forall|s: int| #[trigger] self.exact_at(text@, s) && self.exact_wanted(*ranks) ==> r@.len() > 0,
    {
        let ghost t = text@;
        let ghost b = encode_utf8(t);
        let ghost p = self.spec_pattern_chars();
        let ghost ci = self.spec_case_insensitive();
        let k = self.limits.max_edits;
        let all = self.find_all(text, ranks);
        let ghost wanted = exists|s: int| #[trigger] self.exact_at(t, s) && self.exact_wanted(*ranks);
        let ghost sw = choose|s: int| #[trigger] self.exact_at(t, s) && self.exact_wanted(*ranks);
        let ghost iw = choose|i: int|
            0 <= i < all@.len() && (#[trigger] all@[i]).start == byte_offset(t, sw) && all@[i].end == byte_offset(t, sw + p.len());
        let mut result: Vec<EditMatch> = Vec::new();
        if all.len() == 0 {
            return result;
        }
        let min_len = if self.pattern_len > k as usize {
            self.pattern_len - k as usize
        } else {
            0
        };
        let (cs, offs) = decode_text(text);
        let n = cs.len();
        let text_len = offs[n];
        proof {
            lemma_offset_bounds(t, n as int);
        }
        let first = self.pattern_chars[0];
        let mut kept: Vec<EditMatch> = Vec::new();
        let mut i: usize = 0;
        while i < all.len()
            invariant
                0 <= i <= all@.len(),
                cs@ == t,
                n == t.len(),
                offsets_of(t, offs@),
                p == self.spec_pattern_chars(),
                ci == self.spec_case_insensitive(),
                first == p[0],
                min_len == min_match_len(p.len() as int, k as int),
                forall|j: int| 0 <= j < all@.len() ==> self.reported(b, *ranks, #[trigger] all@[j]),
                forall|j: int| 0 <= j < all@.len() ==> (#[trigger] all@[j]).start < all@[j].end,
                forall|j: int| 0 <= j < kept@.len() ==> self.reported(b, *ranks, #[trigger] kept@[j]),
                forall|j: int| 0 <= j < kept@.len() ==> (#[trigger] kept@[j]).start < kept@[j].end,
                forall|j: int| 0 <= j < kept@.len() ==> (#[trigger] kept@[j]).end - kept@[j].start >= min_len,
                require_first_char ==> forall|j: int| 0 <= j < kept@.len() ==> starts_with_char(t, (#[trigger] kept@[j]).start as int, first, ci),
                wanted ==> self.exact_at(t, sw) && self.exact_wanted(*ranks) && 0 <= iw < all@.len() && all@[iw].start == byte_offset(t, sw)
                    && all@[iw].end == byte_offset(t, sw + p.len()),
                wanted && i > iw ==> kept@.len() > 0,
                all@.len() > 0,
            decreases all@.len() - i,
        {
            let m = all[i];
            assert(all@[i as int] == m);
            proof {
                if wanted && i == iw {
                    lemma_offset_gap(t, sw, sw + p.len());
                    assert(m.end - m.start >= p.len());
                    assert(t[sw + 0] == p[0]);
                    assert(offs@[sw] == byte_offset(t, sw));
                }
            }
            if m.end - m.start >= min_len {
                let mut keep = true;
                if require_first_char {
                    keep = false;
                    let found_ix = char_index_at(&offs, n, m.start);
                    proof {
                        if wanted && i == iw {
                            assert(offs@[sw] == m.start);
                            if let Some(ix) = found_ix {
                                if ix < sw {
                                    lemma_offset_strict(t, ix as int, sw);
                                }
                                if ix > sw {
                                    lemma_offset_strict(t, sw, ix as int);
                                }
                                assert(cs@[ix as int] == p[0]);
                            }
                        }
                    }
                    if let Some(ix) = found_ix {
                        let fc = cs[ix];
                        let same = if self.case_insensitive {
                            to_ascii_lower(fc) == to_ascii_lower(first)
                        } else {
                            fc == first
                        };
                        if same {
                            proof {
                                assert(byte_offset(t, ix as int) == m.start);
                            }
                            keep = true;
                        }
                    }
                }
                if keep {
                    kept.push(m);
                }
            }
            i = i + 1;
        }
        if kept.len() == 0 {
            return result;
        }
        proof {
            assert forall|j: int| 0 <= j < kept@.len() implies (#[trigger] kept@[j]).deletions <= k by {
                assert(self.reported(b, *ranks, kept@[j]));
            }
        }
        let sorted = sort_by_score(&kept, &ranks.finished, k);
        let mut occupied: Vec<bool> = Vec::new();
        let mut slots: Vec<Option<EditMatch>> = Vec::new();
        let mut z: usize = 0;
        while z < text_len
            invariant
                0 <= z <= text_len,
                text_len == b.len(),
                occupied@.len() == z,
                slots@.len() == z,
                forall|q: int| 0 <= q < z ==> !(#[trigger] occupied@[q]),
                forall|q: int| 0 <= q < z ==> (#[trigger] slots@[q]) is None,
            decreases text_len - z,
        {
            occupied.push(false);
            slots.push(None);
            z = z + 1;
        }
        let mut s_i: usize = 0;
        while s_i < sorted.len()
            invariant
                0 <= s_i <= sorted@.len(),
                text_len == b.len(),
                occupied@.len() == text_len,
                slots@.len() == text_len,
                forall|a: int| 0 <= a < sorted@.len() ==> kept@.contains(#[trigger] sorted@[a]),
                forall|j: int| 0 <= j < kept@.len() ==> self.reported(b, *ranks, #[trigger] kept@[j]),
                forall|j: int| 0 <= j < kept@.len() ==> (#[trigger] kept@[j]).start < kept@[j].end,
                forall|j: int| 0 <= j < kept@.len() ==> (#[trigger] kept@[j]).end - kept@[j].start >= min_len,
                require_first_char ==> forall|j: int| 0 <= j < kept@.len() ==> starts_with_char(t, (#[trigger] kept@[j]).start as int, first, ci),
                forall|q: int|
                    0 <= q < text_len ==> match #[trigger] slots@[q] {
                        Some(x) => {
                            &&& x.start == q
                            &&& x.start < x.end
                            &&& kept@.contains(x)
                        },
                        None => true,
                    },
                forall|q: int, w: int|
                    0 <= q <= w < text_len && (#[trigger] slots@[q]) is Some && w < slots@[q]->0.end ==> #[trigger] occupied@[w],
                sorted@.len() == kept@.len(),
                kept@.len() > 0,
                s_i > 0 ==> exists|q: int| 0 <= q < text_len && (#[trigger] slots@[q]) is Some,
                s_i == 0 ==> forall|q: int| 0 <= q < text_len ==> !(#[trigger] occupied@[q]),
                forall|q1: int, q2: int|
                    0 <= q1 < q2 < text_len && (#[trigger] slots@[q1]) is Some && (#[trigger] slots@[q2]) is Some
                        ==> slots@[q1]->0.end <= q2,
            decreases sorted@.len() - s_i,
        {
            let m = sorted[s_i];
            assert(kept@.contains(sorted@[s_i as int]));
            let mut overlaps = false;
            let mut w: usize = m.start;
            while w < m.end && !overlaps
                invariant
                    m.start <= w <= m.end,
                    m.end <= text_len,
                    occupied@.len() == text_len,
                    !overlaps ==> forall|v: int| m.start <= v < w ==> !(#[trigger] occupied@[v]),
                    s_i == 0 ==> forall|q: int| 0 <= q < text_len ==> !(#[trigger] occupied@[q]),
                    s_i == 0 ==> !overlaps,
                decreases m.end - w + (if overlaps {
                    0int
                } else {
                    1int
                }),
            {
                if occupied[w] {
                    overlaps = true;
                } else {
                    w = w + 1;
                }
            }
            if !overlaps {
                let ghost occ0 = occupied@;
                let ghost sl0 = slots@;
                proof {
                    assert forall|q1: int| 0 <= q1 < text_len && q1 != m.start && (#[trigger] sl0[q1]) is Some implies (
                    q1 < m.start ==> sl0[q1]->0.end <= m.start) && (q1 > m.start ==> m.end <= q1) by {
                        if q1 < m.start && sl0[q1]->0.end > m.start {
                            assert(occ0[m.start as int]);
                        }
                        if q1 > m.start && m.end > q1 {
                            assert(occ0[q1]);
                        }
                    }
                    if sl0[m.start as int] is Some {
                        assert(occ0[m.start as int]);
                    }
                }
                let mut v: usize = m.start;
                while v < m.end
                    invariant
                        m.start <= v <= m.end,
                        m.end <= text_len,
                        occupied@.len() == text_len,
                        forall|u: int| 0 <= u < text_len ==> (#[trigger] occupied@[u]) == (occ0[u] || (m.start <= u < v)),
                    decreases m.end - v,
                {
                    occupied.set(v, true);
                    v = v + 1;
                }
                slots.set(m.start, Some(m));
                assert(slots@[m.start as int] is Some);
                proof {
                    assert forall|q: int, w2: int|
                        0 <= q <= w2 < text_len && (#[trigger] slots@[q]) is Some && w2 < slots@[q]->0.end implies #[trigger] occupied@[w2] by {
                        if q != m.start {
                            assert(slots@[q] == sl0[q]);
                        }
                    }
                    assert forall|q1: int, q2: int|
                        0 <= q1 < q2 < text_len && (#[trigger] slots@[q1]) is Some && (#[trigger] slots@[q2]) is Some
                            implies slots@[q1]->0.end <= q2 by {
                        if q1 != m.start {
                            assert(slots@[q1] == sl0[q1]);
                        }
                        if q2 != m.start {
                            assert(slots@[q2] == sl0[q2]);
                        }
                    }
                }
            }
            s_i = s_i + 1;
        }
        let mut q: usize = 0;
        while q < text_len
            invariant
                0 <= q <= text_len,
                slots@.len() == text_len,
                forall|j: int| 0 <= j < kept@.len() ==> self.reported(b, *ranks, #[trigger] kept@[j]),
                forall|j: int| 0 <= j < kept@.len() ==> (#[trigger] kept@[j]).end - kept@[j].start >= min_len,
                require_first_char ==> forall|j: int| 0 <= j < kept@.len() ==> starts_with_char(t, (#[trigger] kept@[j]).start as int, first, ci),
                forall|u: int|
                    0 <= u < text_len ==> match #[trigger] slots@[u] {
                        Some(x) => {
                            &&& x.start == u
                            &&& x.start < x.end
                            &&& kept@.contains(x)
                        },
                        None => true,
                    },
                forall|q1: int, q2: int|
                    0 <= q1 < q2 < text_len && (#[trigger] slots@[q1]) is Some && (#[trigger] slots@[q2]) is Some
                        ==> slots@[q1]->0.end <= q2,
                forall|j: int| 0 <= j < result@.len() ==> (#[trigger] result@[j]).start < q && slots@[result@[j].start as int] == Some(result@[j]),
                forall|j: int| 0 <= j < result@.len() ==> kept@.contains(#[trigger] result@[j]),
                forall|j: int| 0 <= j < result@.len() ==> (#[trigger] result@[j]).start < result@[j].end,
                forall|i1: int, j1: int| 0 <= i1 < j1 < result@.len() ==> (#[trigger] result@[i1]).end <= (#[trigger] result@[j1]).start,
                (exists|u: int| 0 <= u < text_len && (#[trigger] slots@[u]) is Some) ==> (exists|u: int|
                    q <= u < text_len && (#[trigger] slots@[u]) is Some) || result@.len() > 0,
            decreases text_len - q,
        {
            if let Some(m) = slots[q] {
                let ghost r0 = result@;
                result.push(m);
                proof {
                    assert forall|i1: int, j1: int| 0 <= i1 < j1 < result@.len() implies (#[trigger] result@[i1]).end <= (#[trigger] result@[j1]).start by {
                        if j1 == r0.len() {
                            let x = r0[i1];
                            assert(slots@[x.start as int] == Some(x));
                        } else {
                            assert(result@[i1] == r0[i1]);
                            assert(result@[j1] == r0[j1]);
                        }
                    }
                    assert forall|j: int| 0 <= j < result@.len() implies (#[trigger] result@[j]).start < q + 1 && slots@[result@[j].start as int] == Some(result@[j]) by {
                        if j < r0.len() {
                            assert(result@[j] == r0[j]);
                        }
                    }
                }
            }
            q = q + 1;
        }
        proof {
            assert forall|i1: int| 0 <= i1 < result@.len() implies self.reported(b, *ranks, #[trigger] result@[i1])
                && result@[i1].end - result@[i1].start >= min_len
                && (require_first_char ==> starts_with_char(t, result@[i1].start as int, first, ci)) by {
                assert(kept@.contains(result@[i1]));
                let w = choose|w: int| 0 <= w < kept@.len() && kept@[w] == result@[i1];
                assert(self.reported(b, *ranks, kept@[w]));
            }
        }
        result
    }
}

/// A text character as the left-to-right searches compare it: the first
/// character of its lowercase mapping when case-insensitive.
pub open spec fn text_fold(c: char, ci: bool) -> char {
    if ci {
        first_lower(c)
    } else {
        c
    }
}

/// The last `j + 1` of the first `cc` characters of `t` match the first
/// `j + 1` pattern characters exactly.
pub open spec fn exact_run(p: Seq<char>, t: Seq<char>, ci: bool, cc: int, j: int) -> bool {
    &&& 0 <= j < p.len()
    &&& j + 1 <= cc <= t.len()
    &&& forall|i: int| 0 <= i <= j ==> #[trigger] text_fold(t[cc - 1 - j + i], ci) == p[i]
}

/// Every cleared bit `j` of the exact-match state after `cc` characters
/// stands for an exact run of length `j + 1`.
pub open spec fn exact_state(r0: u128, p: Seq<char>, t: Seq<char>, ci: bool, cc: int) -> bool {
    forall|j: u128| j < 128 ==> (#[trigger] cleared(r0, j) ==> exact_run(p, t, ci, cc, j as int))
}

/// The span `s..e` of the text is `p.len()` characters starting at a
/// character boundary, and they fold to the pattern.
pub open spec fn exact_window(p: Seq<char>, t: Seq<char>, ci: bool, s: int, e: int) -> bool {
    exists|k: int|
        0 <= k && k + p.len() <= t.len() && #[trigger] byte_offset(t, k) == s && byte_offset(t, k + p.len()) == e
            && forall|i: int| 0 <= i < p.len() ==> #[trigger] text_fold(t[k + i], ci) == p[i]
}

proof fn lemma_shift_or_bit(x: u128, y: u128, j: u128)
    by (bit_vector)
    requires
        j < 128,
        (((x << 1u128) | y) >> j) & 1 == 0,
    ensures
        (y >> j) & 1 == 0,
        j > 0 ==> (x >> ((j - 1) as u128)) & 1 == 0,
{
}

proof fn lemma_accept_bit(x: u128, k: u128)
    by (bit_vector)
    requires
        k < 128,
        x & (1u128 << k) == 0,
    ensures
        (x >> k) & 1 == 0,
{
}

/// All ones: no exact run.
proof fn lemma_exact_state_fresh(p: Seq<char>, t: Seq<char>, ci: bool, cc: int)
    ensures
        exact_state(!0u128, p, t, ci, cc),
{
    assert forall|j: u128| j < 128 && #[trigger] cleared(!0u128, j) implies exact_run(p, t, ci, cc, j as int) by {
        lemma_all_ones(j);
    }
}

/// One shift-or step on the exact-match state extends every run by the next
/// character.
proof fn lemma_exact_state_step(r0: u128, mask: u128, p: Seq<char>, t: Seq<char>, ci: bool, cc: int)
    requires
        exact_state(r0, p, t, ci, cc),
        0 <= cc < t.len(),
        char_mask_of(mask, p, text_fold(t[cc], ci)),
    ensures
        exact_state((r0 << 1u128) | mask, p, t, ci, cc + 1),
{
    let nr = (r0 << 1u128) | mask;
    assert forall|j: u128| j < 128 && #[trigger] cleared(nr, j) implies exact_run(p, t, ci, cc + 1, j as int) by {
        {
            lemma_shift_or_bit(r0, mask, j);
            assert(cleared(mask, j));
            assert(j < p.len() && p[j as int] == text_fold(t[cc], ci));
            if j > 0 {
                let jm = (j - 1) as u128;
                assert(cleared(r0, jm));
                assert(exact_run(p, t, ci, cc, jm as int));
                assert forall|i: int| 0 <= i <= j implies #[trigger] text_fold(t[cc + 1 - 1 - j + i], ci) == p[i] by {
                    if i < j {
                        assert(text_fold(t[cc - 1 - jm + i], ci) == p[i]);
                    }
                }
            }
        }
    }
}

/// One step of the shift-or automaton with transpositions over the three
/// rotating state vectors: the previous states become the older ones, and
/// each edit count's new state combines a match, an insertion, a deletion, a
/// substitution and (given the previous character's mask) a transposition
/// of the last two characters.
fn shift_step(r: &mut Vec<u128>, old_r: &mut Vec<u128>, old_old_r: &mut Vec<u128>, mask: u128, prev_mask: Option<u128>, eff: usize)
    requires
        eff <= 128,
        old(r)@.len() == eff + 1,
        old(old_r)@.len() == eff + 1,
        old(old_old_r)@.len() == eff + 1,
    ensures
        final(r)@.len() == eff + 1,
        final(old_r)@.len() == eff + 1,
        final(old_old_r)@.len() == eff + 1,
        final(r)@[0] == (old(r)@[0] << 1u128) | mask,
{
    std::mem::swap(old_old_r, old_r);
    std::mem::swap(old_r, r);
    r.set(0, (old_r[0] << 1) | mask);
    let mut d: usize = 1;
    while d <= eff
        invariant
            1 <= d <= eff + 1,
            eff <= 128,
            r@.len() == eff + 1,
            old_r@.len() == eff + 1,
            old_old_r@.len() == eff + 1,
            r@[0] == (old_r@[0] << 1u128) | mask,
        decreases eff + 1 - d,
    {
        let insert = old_r[d - 1];
        let delete = r[d - 1] << 1;
        let substitute = old_r[d - 1] << 1;
        let match_d = (old_r[d] << 1) | mask;
        let mut new_val = match_d & insert & delete & substitute;
        if let Some(pm) = prev_mask {
            let trans_valid_mask = mask | (pm >> 1);
            let trans = ((old_old_r[d - 1] << 1) | trans_valid_mask) << 1;
            new_val = new_val & trans;
        }
        r.set(d, new_val);
        d = d + 1;
    }
}

/// A state vector with every bit set, one entry per edit count `0..=eff`.
fn ones_states(eff: usize) -> (r: Vec<u128>)
    requires
        eff <= 128,
    ensures
        r@.len() == eff + 1,
{
    let mut a: Vec<u128> = Vec::new();
    let mut i: usize = 0;
    while i <= eff
        invariant
            0 <= i <= eff + 1,
            eff <= 128,
            a@.len() == i,
        decreases eff + 1 - i,
    {
        a.push(!0u128);
        i = i + 1;
    }
    a
}

/// All three state vectors back to the start: no characters read.
fn reset_states(r: &mut Vec<u128>, old_r: &mut Vec<u128>, old_old_r: &mut Vec<u128>, eff: usize)
    requires
        eff <= 128,
    ensures
        final(r)@.len() == eff + 1,
        final(old_r)@.len() == eff + 1,
        final(old_old_r)@.len() == eff + 1,
        final(r)@[0] == !0u128,
{
    *old_r = ones_states(eff);
    *old_old_r = ones_states(eff);
    *r = fresh_states(eff);
}

/// Match `a` is preferred to `b` when refining an end: fewer edits, then a
/// span (in bytes) closer to the pattern length `p`, then a shorter span.
pub open spec fn end_better(a: EditMatch, b: EditMatch, p: int) -> bool {
    let aspan = a.end - a.start;
    let bspan = b.end - b.start;
    edits_of(a) < edits_of(b) || (edits_of(a) == edits_of(b) && (abs_diff(aspan, p) < abs_diff(bspan, p) || (abs_diff(
        aspan,
        p,
    ) == abs_diff(bspan, p) && aspan < bspan)))
}

impl BitapMatcher {
    /// Fewest characters of the windows the end refinement tries: the
    /// pattern length less the budget (capped at the pattern length), at
    /// least one.
    pub open spec fn refine_min_len(&self) -> int {
        let p = self.spec_pattern_chars().len() as int;
        let k = self.spec_limits().max_edits as int;
        let eff = if k < p {
            k
        } else {
            p
        };
        if p > eff && p - eff > 1 {
            p - eff
        } else {
            1
        }
    }

    /// Most characters of the windows the end refinement tries: the pattern
    /// length plus the budget (capped at the pattern length).
    pub open spec fn refine_max_len(&self) -> int {
        let p = self.spec_pattern_chars().len() as int;
        let k = self.spec_limits().max_edits as int;
        p + if k < p {
            k
        } else {
            p
        }
    }

    /// The window of `t` from character `sk` to character `ek` passes the
    /// quick check with one more than the budget, has at most the budget of
    /// edits, and its score reaches the threshold.
    pub open spec fn refine_qualifies(&self, t: Seq<char>, ranks: ScoreRanks, sk: int, ek: int) -> bool {
        let b = encode_utf8(t);
        let w = self.window_match(b, byte_offset(t, sk), byte_offset(t, ek));
        &&& self.passes_quick_check(b.subrange(byte_offset(t, sk), byte_offset(t, ek)), self.spec_limits().max_edits + 1)
        &&& edits_of(w) <= self.spec_limits().max_edits
        &&& bitap_rank(ranks.finished@, w) >= ranks.threshold
    }

    /// With minimum-edit ends chosen, the match with the same start whose end
    /// (from the pattern length less the budget, at least one character, to
    /// the pattern length plus the budget, the budget capped at the pattern
    /// length) gives the fewest edits, then the span (in bytes) closest to the
    /// pattern length, then the shortest span, among windows within the budget
    /// whose score reaches the threshold; `m` itself when there is none or
    /// the choice is off.  `sk` is the index of the character starting `m`.
    fn refine_min_edit_end(
        &self,
        m: EditMatch,
        sk: usize,
        cs: &Vec<char>,
        offs: &Vec<usize>,
        bytes: &[u8],
        ranks: &ScoreRanks,
        Ghost(t): Ghost<Seq<char>>,
    ) -> (r: EditMatch)
        requires
            self.wf(),
            cs@ == t,
            offsets_of(t, offs@),
            bytes@ == encode_utf8(t),
            sk < t.len(),
            offs@[sk as int] == m.start,
        ensures
            r == m || (r.start == m.start && m.start < r.end && self.reported(bytes@, *ranks, r)),
            !self.spec_prefer_min_edit() ==> r == m,
            self.spec_prefer_min_edit() ==> forall|ek: int|
                sk + self.refine_min_len() <= ek <= t.len() && ek <= sk + self.refine_max_len() && #[trigger] self.refine_qualifies(
                    t,
                    *ranks,
                    sk as int,
                    ek,
                ) ==> exists|e2: int| sk < e2 <= t.len() && r == #[trigger] self.window_match(bytes@, m.start as int, byte_offset(t, e2)),
            self.spec_prefer_min_edit() ==> forall|ek: int|
                sk + self.refine_min_len() <= ek <= t.len() && ek <= sk + self.refine_max_len() && #[trigger] self.refine_qualifies(
                    t,
                    *ranks,
                    sk as int,
                    ek,
                ) ==> !end_better(self.window_match(bytes@, m.start as int, byte_offset(t, ek)), r, self.spec_pattern_chars().len() as int),
    {
        if !self.prefer_min_edit {
            return m;
        }
        let p_len = self.pattern_len;
        let max_edits = self.limits.max_edits as usize;
        let eff_edits = if max_edits < p_len {
            max_edits
        } else {
            p_len
        };
        let min_len = if p_len > eff_edits && p_len - eff_edits > 1 {
            p_len - eff_edits
        } else {
            1
        };
        let max_len = p_len + eff_edits;
        let n = cs.len();
        let start = m.start;
        let mut chosen: Option<EditMatch> = None;
        let mut ek: usize = sk;
        let mut char_count: usize = 0;
        while ek < n && char_count < max_len
            invariant
                self.wf(),
                p_len == self.spec_pattern_chars().len(),
                max_edits == self.spec_limits().max_edits,
                window_cap(p_len as int, max_edits as int) <= 254,
                max_len <= window_cap(p_len as int, max_edits as int) - 1,
                cs@ == t,
                n == t.len(),
                offsets_of(t, offs@),
                bytes@ == encode_utf8(t),
                sk <= ek <= n,
                char_count == ek - sk,
                offs@[sk as int] == start,
                chosen matches Some(c) ==> c.start == start && start < c.end && self.reported(bytes@, *ranks, c),
                min_len == self.refine_min_len(),
                max_len == self.refine_max_len(),
                p_len >= 1,
                chosen matches Some(c) ==> exists|e2: int| sk < e2 <= ek && c == #[trigger] self.window_match(bytes@, start as int, byte_offset(t, e2)),
                forall|e2: int|
                    sk + min_len <= e2 <= ek && #[trigger] self.refine_qualifies(t, *ranks, sk as int, e2) ==> (chosen matches Some(
                        c,
                    ) && !end_better(self.window_match(bytes@, start as int, byte_offset(t, e2)), c, p_len as int)),
            decreases n - ek,
        {
            ek = ek + 1;
            char_count = char_count + 1;
            if char_count >= min_len {
                let end = offs[ek];
                proof {
                    lemma_window_bytes(t, sk as int, ek as int);
                    lemma_offset_strict(t, sk as int, ek as int);
                }
                let ghost before = chosen;
                proof {
                    assert(bytes@.subrange(start as int, end as int) == encode_utf8(t).subrange(byte_offset(t, sk as int), byte_offset(t, ek as int)));
                }
                if let Some(cand) = self.try_window(bytes, start, end, max_edits + 1, max_edits, ranks) {
                    let replace = match chosen {
                        None => true,
                        Some(cur) => {
                            let ct: u16 = cand.insertions as u16 + cand.deletions as u16 + cand.substitutions as u16 + cand.swaps as u16;
                            let kt: u16 = cur.insertions as u16 + cur.deletions as u16 + cur.substitutions as u16 + cur.swaps as u16;
                            let cspan = cand.end - cand.start;
                            let kspan = cur.end - cur.start;
                            let cdiff = if cspan >= p_len {
                                cspan - p_len
                            } else {
                                p_len - cspan
                            };
                            let kdiff = if kspan >= p_len {
                                kspan - p_len
                            } else {
                                p_len - kspan
                            };
                            ct < kt || (ct == kt && (cdiff < kdiff || (cdiff == kdiff && cspan < kspan)))
                        },
                    };
                    proof {
                        if let Some(cur) = before {
                            assert(replace == end_better(cand, cur, p_len as int));
                        }
                    }
                    if replace {
                        chosen = Some(cand);
                    }
                }
                proof {
                    assert forall|e2: int|
                        sk + min_len <= e2 <= ek && #[trigger] self.refine_qualifies(t, *ranks, sk as int, e2) implies (chosen matches Some(
                            c,
                        ) && !end_better(self.window_match(bytes@, start as int, byte_offset(t, e2)), c, p_len as int)) by {
                        let w = self.window_match(bytes@, start as int, byte_offset(t, e2));
                        if e2 < ek && before is Some && chosen is Some && chosen->0 != before->0 && end_better(
                            w,
                            chosen->0,
                            p_len as int,
                        ) {
                            assert(end_better(chosen->0, before->0, p_len as int));
                            assert(end_better(w, before->0, p_len as int));
                        }
                    }
                }
            }
        }
        match chosen {
            Some(c) => c,
            None => m,
        }
    }
}

impl BitapMatcher {
    /// The candidate at edit level `d` once `cc` characters are read: the
    /// windows ending here are tried from the longest (the pattern length plus
    /// `d` characters, at most `cc`) to the shortest (the pattern length less
    /// `d`), skipping those that start before `last_end` or (with `first`) do
    /// not start with that character.  At level zero the first such window is
    /// an exact match; above it, the first whose exact breakdown is within the
    /// budget and whose score reaches the threshold.  Returns the match and
    /// the index of its first character.
    fn level_candidate(
        &self,
        d: usize,
        cc: usize,
        last_end: usize,
        first: Option<char>,
        cs: &Vec<char>,
        offs: &Vec<usize>,
        bytes: &[u8],
        ranks: &ScoreRanks,
        Ghost(t): Ghost<Seq<char>>,
    ) -> (r: Option<(EditMatch, usize)>)
        requires
            self.wf(),
            cs@ == t,
            offsets_of(t, offs@),
            bytes@ == encode_utf8(t),
            1 <= cc <= t.len(),
            d <= self.spec_limits().max_edits,
            d <= self.spec_pattern_chars().len(),
            d == 0 ==> exact_run(
                self.spec_pattern_chars(),
                t,
                self.spec_case_insensitive(),
                cc as int,
                self.spec_pattern_chars().len() - 1,
            ),
            first matches Some(c) ==> c == self.spec_pattern_chars()[0],
        ensures
            r matches Some(x) ==> {
                let (m, sk) = x;
                &&& sk < cc
                &&& offs@[sk as int] == m.start
                &&& m.end == offs@[cc as int]
                &&& m.start < m.end
                &&& last_end <= m.start
                &&& (first is Some ==> starts_with_char(t, m.start as int, self.spec_pattern_chars()[0], self.spec_case_insensitive()))
                &&& if d == 0 {
                    &&& counts(m) == (0int, 0int, 0int, 0int)
                    &&& exact_window(self.spec_pattern_chars(), t, self.spec_case_insensitive(), m.start as int, m.end as int)
                } else {
                    self.reported(bytes@, *ranks, m)
                }
            },
            d == 0 ==> (r is Some <==> (byte_offset(t, cc - self.spec_pattern_chars().len()) >= last_end && (first matches Some(
                c0,
            ) ==> char_agrees(t[cc - self.spec_pattern_chars().len()], c0, self.spec_case_insensitive())))),
            d == 0 ==> (r matches Some(x) ==> x.1 == cc - self.spec_pattern_chars().len()),
    {
        let ghost p = self.spec_pattern_chars();
        let ghost ci = self.spec_case_insensitive();
        let p_len = self.pattern_len;
        let max_edits = self.limits.max_edits as usize;
        let n = cs.len();
        let text_len = offs[n];
        let end_byte = offs[cc];
        let min_len = p_len - d;
        let max_len = if p_len + d < cc {
            p_len + d
        } else {
            cc
        };
        if max_len < min_len {
            return None;
        }
        let mut i: usize = 0;
        while i <= max_len - min_len
            invariant
                self.wf(),
                p == self.spec_pattern_chars(),
                ci == self.spec_case_insensitive(),
                p_len == p.len(),
                max_edits == self.spec_limits().max_edits,
                window_cap(p_len as int, max_edits as int) <= 254,
                cs@ == t,
                n == t.len(),
                offsets_of(t, offs@),
                bytes@ == encode_utf8(t),
                1 <= cc <= n,
                d <= max_edits,
                d <= p_len,
                min_len == p_len - d,
                max_len <= p_len + d,
                max_len <= cc,
                min_len <= max_len,
                end_byte == offs@[cc as int],
                text_len == offs@[n as int],
                d == 0 ==> exact_run(p, t, ci, cc as int, p_len - 1),
                first matches Some(c) ==> c == p[0],
                d == 0 && i > 0 ==> !(byte_offset(t, cc - p_len) >= last_end && (first matches Some(c0) ==> char_agrees(
                    t[cc - p_len],
                    c0,
                    ci,
                ))),
            decreases max_len - min_len + 1 - i,
        {
            let try_len = max_len - i;
            let sk = cc - try_len;
            let start_byte = if try_len > 0 {
                offs[sk]
            } else {
                end_byte
            };
            proof {
                if d == 0 {
                    assert(try_len == p_len);
                    lemma_offset_strict(t, sk as int, cc as int);
                    lemma_offset_bounds(t, cc as int);
                    lemma_offset_bounds(t, sk as int);
                }
            }
            let mut skip = start_byte >= end_byte || start_byte >= text_len || start_byte < last_end;
            if !skip {
                if let Some(c0) = first {
                    let fc = cs[sk];
                    let same = if self.case_insensitive {
                        to_ascii_lower(fc) == to_ascii_lower(c0)
                    } else {
                        fc == c0
                    };
                    if !same {
                        skip = true;
                    } else {
                        proof {
                            assert(byte_offset(t, sk as int) == start_byte);
                        }
                    }
                }
            }
            if !skip {
                proof {
                    lemma_offset_strict(t, sk as int, cc as int);
                    lemma_window_bytes(t, sk as int, cc as int);
                }
                if d == 0 {
                    let m = EditMatch {
                        start: start_byte,
                        end: end_byte,
                        insertions: 0,
                        deletions: 0,
                        substitutions: 0,
                        swaps: 0,
                    };
                    proof {
                        assert(try_len == p_len);
                        assert forall|x: int| 0 <= x < p.len() implies #[trigger] text_fold(t[sk + x], ci) == p[x] by {
                            assert(text_fold(t[cc - 1 - (p_len - 1) + x], ci) == p[x]);
                        }
                        assert(byte_offset(t, sk as int) == m.start);
                        assert(byte_offset(t, sk + p.len()) == m.end);
                    }
                    return Some((m, sk));
                } else {
                    if let Some(m) = self.try_window(bytes, start_byte, end_byte, max_edits, max_edits, ranks) {
                        return Some((m, sk));
                    }
                }
            }
            i = i + 1;
        }
        None
    }
}

impl BitapMatcher {
    /// `m` is a match the non-overlapping searches may report: one `find_all`
    /// may report, or an exact occurrence of the pattern with no edits.
    pub open spec fn sound_match(&self, t: Seq<char>, ranks: ScoreRanks, m: EditMatch) -> bool {
        ||| self.reported(encode_utf8(t), ranks, m)
        ||| (counts(m) == (0int, 0int, 0int, 0int) && exact_window(
            self.spec_pattern_chars(),
            t,
            self.spec_case_insensitive(),
            m.start as int,
            m.end as int,
        ))
    }

    /// Greedy left-to-right matches that do not overlap, at most `limit` of
    /// them (no limit when `limit` is zero).  The automaton with
    /// transpositions reads the text; at the lowest edit level where it
    /// reaches the end of the pattern (levels whose best score misses the
    /// threshold skipped, and levels above a pending match's only checked for
    /// an improvement), the candidate of that level is taken: an exact match
    /// at level zero is reported at once; a fuzzy one becomes the pending
    /// match unless the pending one is at a lower level, starts earlier, or
    /// starts at the same place and is at least as long.  A pending match is
    /// reported (its end refined when minimum-edit ends are chosen) after a
    /// wait: one character at level zero, two for a match at the top level of
    /// a pattern over 32 characters or for one at least as long as the
    /// pattern, otherwise the budget (at most twice the pattern length) plus
    /// one.  After a report the automaton starts afresh.  An empty text gives
    /// the all-deletions match when the budget allows it and its score
    /// reaches the threshold.
    fn find_non_overlapping_impl(&self, text: &str, ranks: &ScoreRanks, require_first_char: bool, limit: usize) -> (r:
        Vec<EditMatch>)
        requires
            self.wf(),
        ensures
            limit > 0 ==> r@.len() <= limit,
            forall|i: int| 0 <= i < r@.len() ==> self.sound_match(text@, *ranks, #[trigger] r@[i]),
            text@.len() == 0 ==> r@ == match self.empty_text_match(*ranks) {
                Some(m) => seq![m],
                None => Seq::<EditMatch>::empty(),
            },
            forall|i: int| 0 < i < r@.len() ==> r@[i - 1].end <= (#[trigger] r@[i]).start,
            text@.len() > 0 ==> forall|i: int| 0 <= i < r@.len() ==> (#[trigger] r@[i]).start < r@[i].end,
            text@.len() > 0 && require_first_char ==> forall|i: int|
                0 <= i < r@.len() ==> starts_with_char(
                    text@,
                    (#[trigger] r@[i]).start as int,
                    self.spec_pattern_chars()[0],
                    self.spec_case_insensitive(),
                ),
            forall|s: int| #[trigger] self.exact_at(text@, s) && self.exact_wanted(*ranks) ==> r@.len() > 0,
    {
        let ghost t = text@;
        let ghost p = self.spec_pattern_chars();
        let ghost ci = self.spec_case_insensitive();
        let p_len = self.pattern_len;
        let max_edits = self.limits.max_edits as usize;
        let eff = if max_edits < p_len {
            max_edits
        } else {
            p_len
        };
        let (cs, offs) = decode_text(text);
        let n = cs.len();
        let bytes = text.as_bytes();
        let mut matches: Vec<EditMatch> = Vec::new();
        let ghost wanted = exists|s: int| #[trigger] self.exact_at(t, s) && self.exact_wanted(*ranks);
        let ghost sw = choose|s: int| #[trigger] self.exact_at(t, s) && self.exact_wanted(*ranks);
        proof {
            lemma_offset_bounds(t, n as int);
        }
        if n == 0 {
            if p_len <= max_edits {
                let m = EditMatch {
                    start: 0,
                    end: 0,
                    insertions: 0,
                    deletions: p_len as u8,
                    substitutions: 0,
                    swaps: 0,
                };
                if bitap_score(&ranks.finished, &m) >= ranks.threshold {
                    proof {
                        let w = encode_utf8(t).subrange(0, 0);
                        assert(w =~= Seq::<u8>::empty());
                        assert(Seq::<char>::empty() =~= t);
                        lemma_window_bytes(t, 0, 0);
                        assert(t.subrange(0, 0) =~= Seq::<char>::empty());
                        assert(encode_utf8(t).subrange(0, 0) == encode_utf8(t.subrange(0, 0)));
                        assert(self.reported(encode_utf8(t), *ranks, m));
                    }
                    matches.push(m);
                }
            }
            return matches;
        }
        let first: Option<char> = if require_first_char {
            Some(self.pattern_chars[0])
        } else {
            None
        };
        let mut last_end: usize = 0;
        let mut r = fresh_states(eff);
        let mut old_r = ones_states(eff);
        let mut old_old_r = ones_states(eff);
        let mut pending: Option<(usize, EditMatch, usize)> = None;
        let mut chars_since_pending: usize = 0;
        let mut prev_mask: u128 = !0u128;
        let mut char_count: usize = 0;
        proof {
            lemma_exact_state_fresh(p, t, ci, 0);
        }
        while char_count < n
            invariant
                self.wf(),
                p == self.spec_pattern_chars(),
                ci == self.spec_case_insensitive(),
                p_len == p.len(),
                max_edits == self.spec_limits().max_edits,
                eff <= max_edits,
                eff <= p_len,
                eff <= 128,
                window_cap(p_len as int, max_edits as int) <= 254,
                t == text@,
                cs@ == t,
                n == t.len(),
                n > 0,
                offsets_of(t, offs@),
                bytes@ == encode_utf8(t),
                first == (if require_first_char {
                    Some(p[0])
                } else {
                    None
                }),
                0 <= char_count <= n,
                r@.len() == eff + 1,
                old_r@.len() == eff + 1,
                old_old_r@.len() == eff + 1,
                exact_state(r@[0], p, t, ci, char_count as int),
                limit > 0 ==> matches@.len() < limit,
                forall|i: int| 0 <= i < matches@.len() ==> self.sound_match(t, *ranks, #[trigger] matches@[i]),
                forall|i: int| 0 <= i < matches@.len() ==> (#[trigger] matches@[i]).start < matches@[i].end,
                forall|i: int| 0 < i < matches@.len() ==> matches@[i - 1].end <= (#[trigger] matches@[i]).start,
                require_first_char ==> forall|i: int|
                    0 <= i < matches@.len() ==> starts_with_char(t, (#[trigger] matches@[i]).start as int, p[0], ci),
                matches@.len() > 0 ==> last_end == matches@[matches@.len() - 1].end,
                matches@.len() == 0 ==> last_end == 0,
                wanted ==> self.exact_at(t, sw) && self.exact_wanted(*ranks),
                wanted ==> matches@.len() > 0 || char_count < sw + p_len,
                matches@.len() == 0 ==> forall|j: u128|
                    j < 128 && j < char_count && j < p_len && exact_run(p, t, ci, char_count as int, j as int) ==> #[trigger] cleared(
                        r@[0],
                        j,
                    ),
                pending matches Some(x) ==> {
                    let (pd, pm, psk) = x;
                    &&& 1 <= pd <= eff
                    &&& psk < n
                    &&& offs@[psk as int] == pm.start
                    &&& pm.start < pm.end
                    &&& last_end <= pm.start
                    &&& self.reported(bytes@, *ranks, pm)
                    &&& (require_first_char ==> starts_with_char(t, pm.start as int, p[0], ci))
                },
            decreases n - char_count,
        {
            let raw = cs[char_count];
            let tc = if self.case_insensitive {
                lower_first(raw)
            } else {
                raw
            };
            let char_mask = self.get_mask(tc);
            let ghost r0_before = r@[0];
            shift_step(&mut r, &mut old_r, &mut old_old_r, char_mask, Some(prev_mask), eff);
            let ghost v0 = r@[0];
            proof {
                assert(tc == text_fold(t[char_count as int], ci));
                lemma_exact_state_step(r0_before, char_mask, p, t, ci, char_count as int);
                if matches@.len() == 0 {
                    assert forall|j: u128|
                        j < 128 && j < char_count + 1 && j < p_len && exact_run(p, t, ci, char_count + 1, j as int) implies #[trigger] cleared(
                        v0,
                        j,
                    ) by {
                        lemma_exact_run_back(p, t, ci, char_count as int, j as int);
                        assert(cleared(char_mask, j));
                        if j > 0 {
                            let jm = (j - 1) as u128;
                            assert(exact_run(p, t, ci, char_count as int, jm as int));
                            assert(cleared(r0_before, jm));
                        }
                        lemma_run_bit(r0_before, char_mask, j);
                    }
                    if wanted && char_count + 1 == sw + p_len {
                        let k = (p_len - 1) as u128;
                        assert forall|i: int| 0 <= i <= k implies #[trigger] text_fold(t[char_count + 1 - 1 - k + i], ci) == p[i] by {
                            assert(char_count + 1 - 1 - k + i == sw + i);
                            assert(t[sw + i] == p[i]);
                        }
                        assert(exact_run(p, t, ci, char_count + 1, k as int));
                        assert(cleared(v0, k));
                        lemma_bit_accept(v0, k);
                    }
                }
            }
            prev_mask = char_mask;
            let cc = char_count + 1;
            let pending_d: Option<usize> = match pending {
                Some((pd, _, _)) => Some(pd),
                None => None,
            };
            let mut stop = false;
            let mut d: usize = 0;
            while d <= eff && !stop
                invariant
                    self.wf(),
                    p == self.spec_pattern_chars(),
                    ci == self.spec_case_insensitive(),
                    p_len == p.len(),
                    max_edits == self.spec_limits().max_edits,
                    eff <= max_edits,
                    eff <= p_len,
                    eff <= 128,
                    window_cap(p_len as int, max_edits as int) <= 254,
                    t == text@,
                    cs@ == t,
                    n == t.len(),
                    n > 0,
                    offsets_of(t, offs@),
                    bytes@ == encode_utf8(t),
                    first == (if require_first_char {
                        Some(p[0])
                    } else {
                        None
                    }),
                    1 <= cc <= n,
                    0 <= d <= eff + 1,
                    r@.len() == eff + 1,
                    old_r@.len() == eff + 1,
                    old_old_r@.len() == eff + 1,
                    exact_state(r@[0], p, t, ci, cc as int),
                    limit > 0 ==> matches@.len() < limit,
                    forall|i: int| 0 <= i < matches@.len() ==> self.sound_match(t, *ranks, #[trigger] matches@[i]),
                    forall|i: int| 0 <= i < matches@.len() ==> (#[trigger] matches@[i]).start < matches@[i].end,
                    forall|i: int| 0 < i < matches@.len() ==> matches@[i - 1].end <= (#[trigger] matches@[i]).start,
                    require_first_char ==> forall|i: int|
                        0 <= i < matches@.len() ==> starts_with_char(t, (#[trigger] matches@[i]).start as int, p[0], ci),
                    matches@.len() > 0 ==> last_end == matches@[matches@.len() - 1].end,
                    matches@.len() == 0 ==> last_end == 0,
                    pending matches Some(x) ==> {
                        let (pd, pm, psk) = x;
                        &&& 1 <= pd <= eff
                        &&& psk < n
                        &&& offs@[psk as int] == pm.start
                        &&& pm.start < pm.end
                        &&& last_end <= pm.start
                        &&& self.reported(bytes@, *ranks, pm)
                        &&& (require_first_char ==> starts_with_char(t, pm.start as int, p[0], ci))
                    },
                    wanted ==> self.exact_at(t, sw) && self.exact_wanted(*ranks),
                    wanted ==> matches@.len() > 0 || cc <= sw + p_len,
                    wanted && matches@.len() == 0 && cc == sw + p_len ==> d == 0 && !stop && (r@[0] & self.accept_mask) == 0,
                    matches@.len() == 0 ==> r@[0] == v0,
                    matches@.len() == 0 ==> last_end == 0,
                    matches@.len() == 0 ==> forall|j: u128|
                        j < 128 && j < cc && j < p_len && exact_run(p, t, ci, cc as int, j as int) ==> #[trigger] cleared(
                            r@[0],
                            j,
                        ),
                decreases eff + 1 - d + (if stop {
                    0int
                } else {
                    1int
                }),
            {
                let mut consider = (r[d] & self.accept_mask) == 0 && level_lookup(&ranks.level, d) >= ranks.threshold;
                if let Some(pd) = pending_d {
                    if pd < d {
                        consider = false;
                    }
                }
                if consider {
                    proof {
                        if d == 0 {
                            lemma_accept_bit(r@[0], (p_len - 1) as u128);
                            assert(cleared(r@[0], (p_len - 1) as u128));
                        }
                    }
                    let found = self.level_candidate(d, cc, last_end, first, &cs, &offs, bytes, ranks, Ghost(t));
                    if let Some((cand, sk)) = found {
                        if d == 0 {
                            pending = None;
                            chars_since_pending = 0;
                            matches.push(cand);
                            if limit > 0 && matches.len() >= limit {
                                return matches;
                            }
                            last_end = cand.end;
                            reset_states(&mut r, &mut old_r, &mut old_old_r, eff);
                            proof {
                                lemma_exact_state_fresh(p, t, ci, cc as int);
                            }
                            prev_mask = !0u128;
                            stop = true;
                        } else {
                            let cand_len = cand.end - cand.start;
                            let dominated = match pending {
                                Some((pd, pm, _)) => {
                                    let pm_len = pm.end - pm.start;
                                    pd < d || (pd == d && pm.start < cand.start) || (pd == d && pm.start == cand.start && pm_len
                                        >= cand_len)
                                },
                                None => false,
                            };
                            if !dominated {
                                let should_reset = if d >= eff && p_len > 32 {
                                    match pending {
                                        None => true,
                                        Some((pd, pm, _)) => {
                                            if pd == d && pm.start == cand.start {
                                                let cand_te: usize = cand.insertions as usize + cand.deletions as usize
                                                    + cand.substitutions as usize + cand.swaps as usize;
                                                let pm_te: usize = pm.insertions as usize + pm.deletions as usize
                                                    + pm.substitutions as usize + pm.swaps as usize;
                                                cand_te != pm_te
                                            } else {
                                                true
                                            }
                                        },
                                    }
                                } else {
                                    true
                                };
                                if should_reset {
                                    chars_since_pending = 0;
                                }
                                pending = Some((d, cand, sk));
                            }
                            stop = true;
                        }
                    }
                }
                if !stop {
                    d = d + 1;
                }
            }
            if let Some((pd, pm, psk)) = pending {
                if chars_since_pending < usize::MAX {
                    chars_since_pending = chars_since_pending + 1;
                }
                let match_len = pm.end - pm.start;
                let commit_threshold: usize = if pd == 0 {
                    1
                } else if pd >= eff && p_len > 32 {
                    2
                } else if match_len >= p_len {
                    2
                } else {
                    (if max_edits < 2 * p_len {
                        max_edits
                    } else {
                        2 * p_len
                    }) + 1
                };
                if chars_since_pending >= commit_threshold {
                    pending = None;
                    let m2 = self.refine_min_edit_end(pm, psk, &cs, &offs, bytes, ranks, Ghost(t));
                    last_end = m2.end;
                    matches.push(m2);
                    if limit > 0 && matches.len() >= limit {
                        return matches;
                    }
                    reset_states(&mut r, &mut old_r, &mut old_old_r, eff);
                    proof {
                        lemma_exact_state_fresh(p, t, ci, cc as int);
                    }
                    prev_mask = !0u128;
                    chars_since_pending = 0;
                }
            }
            char_count = char_count + 1;
        }
        if let Some((_, pm, psk)) = pending {
            let m2 = self.refine_min_edit_end(pm, psk, &cs, &offs, bytes, ranks, Ghost(t));
            matches.push(m2);
        }
        matches
    }
}

impl BitapMatcher {
    /// All greedy left-to-right non-overlapping matches (see
    /// `find_n_non_overlapping`), with no limit.
    pub fn find_all_non_overlapping(&self, text: &str, ranks: &ScoreRanks, require_first_char: bool) -> (r: Vec<
        EditMatch,
    >)
        requires
            self.wf(),
        ensures
            forall|i: int| 0 <= i < r@.len() ==> self.sound_match(text@, *ranks, #[trigger] r@[i]),
            text@.len() == 0 ==> r@ == match self.empty_text_match(*ranks) {
                Some(m) => seq![m],
                None => Seq::<EditMatch>::empty(),
            },
            forall|i: int| 0 < i < r@.len() ==> r@[i - 1].end <= (#[trigger] r@[i]).start,
            text@.len() > 0 ==> forall|i: int| 0 <= i < r@.len() ==> (#[trigger] r@[i]).start < r@[i].end,
            text@.len() > 0 && require_first_char ==> forall|i: int|
                0 <= i < r@.len() ==> starts_with_char(
                    text@,
                    (#[trigger] r@[i]).start as int,
                    self.spec_pattern_chars()[0],
                    self.spec_case_insensitive(),
                ),
            forall|s: int| #[trigger] self.exact_at(text@, s) && self.exact_wanted(*ranks) ==> r@.len() > 0,
    {
        self.find_non_overlapping_impl(text, ranks, require_first_char, 0)
    }

    /// Greedy left-to-right matches that do not overlap, stopping after `n`
    /// of them (`n == 0`: no limit): an exact occurrence is reported at once,
    /// a fuzzy one after waiting a few characters for a better one.
    pub fn find_n_non_overlapping(&self, text: &str, ranks: &ScoreRanks, require_first_char: bool, n: usize) -> (r:
        Vec<EditMatch>)
        requires
            self.wf(),
        ensures
            n > 0 ==> r@.len() <= n,
            forall|i: int| 0 <= i < r@.len() ==> self.sound_match(text@, *ranks, #[trigger] r@[i]),
            text@.len() == 0 ==> r@ == match self.empty_text_match(*ranks) {
                Some(m) => seq![m],
                None => Seq::<EditMatch>::empty(),
            },
            forall|i: int| 0 < i < r@.len() ==> r@[i - 1].end <= (#[trigger] r@[i]).start,
            text@.len() > 0 ==> forall|i: int| 0 <= i < r@.len() ==> (#[trigger] r@[i]).start < r@[i].end,
            text@.len() > 0 && require_first_char ==> forall|i: int|
                0 <= i < r@.len() ==> starts_with_char(
                    text@,
                    (#[trigger] r@[i]).start as int,
                    self.spec_pattern_chars()[0],
                    self.spec_case_insensitive(),
                ),
            forall|s: int| #[trigger] self.exact_at(text@, s) && self.exact_wanted(*ranks) ==> r@.len() > 0,
    {
        self.find_non_overlapping_impl(text, ranks, require_first_char, n)
    }

    /// The first match: of the non-overlapping matches, the one with the
    /// smallest start (the first of them on ties).
    pub fn find_first(&self, text: &str, ranks: &ScoreRanks) -> (r: Option<EditMatch>)
        requires
            self.wf(),
        ensures
            r matches Some(m) ==> self.sound_match(text@, *ranks, m),
            text@.len() == 0 ==> r == self.empty_text_match(*ranks),
            forall|s: int| #[trigger] self.exact_at(text@, s) && self.exact_wanted(*ranks) ==> r is Some,
    {
        let all = self.find_all_non_overlapping(text, ranks, false);
        if all.len() == 0 {
            return None;
        }
        let mut best: usize = 0;
        let mut i: usize = 1;
        while i < all.len()
            invariant
                1 <= i <= all@.len(),
                best < all@.len(),
            decreases all@.len() - i,
        {
            if all[i].start < all[best].start {
                best = i;
            }
            i = i + 1;
        }
        Some(all[best])
    }
}

/// An ASCII character as the ASCII search reads it: lowercased when
/// case-insensitive.
pub open spec fn ascii_fold(c: char, ci: bool) -> char {
    if ci {
        ascii_lower(c)
    } else {
        c
    }
}

/// The last `j + 1` of the first `cc` characters of the ASCII text `t` are
/// accounted for, one by one, by the first `j + 1` pattern characters.
pub open spec fn ascii_run(p: Seq<char>, t: Seq<char>, ci: bool, cc: int, j: int) -> bool {
    &&& 0 <= j < p.len()
    &&& j + 1 <= cc <= t.len()
    &&& forall|i: int| 0 <= i <= j ==> #[trigger] byte_hits(p[i], ascii_fold(t[cc - 1 - j + i], ci) as int, ci)
}

/// Every cleared bit `j` of the ASCII search's exact state stands for a run.
pub open spec fn ascii_state(r0: u128, p: Seq<char>, t: Seq<char>, ci: bool, cc: int) -> bool {
    forall|j: u128| j < 128 ==> (#[trigger] cleared(r0, j) ==> ascii_run(p, t, ci, cc, j as int))
}

/// The characters `s..e` of the ASCII text `t` are as many as the pattern's
/// and each is accounted for by the pattern character at its place.
pub open spec fn ascii_exact_window(p: Seq<char>, t: Seq<char>, ci: bool, s: int, e: int) -> bool {
    &&& 0 <= s
    &&& e == s + p.len()
    &&& e <= t.len()
    &&& forall|i: int| 0 <= i < p.len() ==> #[trigger] byte_hits(p[i], ascii_fold(t[s + i], ci) as int, ci)
}

proof fn lemma_ascii_state_fresh(p: Seq<char>, t: Seq<char>, ci: bool, cc: int)
    ensures
        ascii_state(!0u128, p, t, ci, cc),
{
    assert forall|j: u128| j < 128 && #[trigger] cleared(!0u128, j) implies ascii_run(p, t, ci, cc, j as int) by {
        lemma_all_ones(j);
    }
}

proof fn lemma_ascii_state_step(r0: u128, mask: u128, p: Seq<char>, t: Seq<char>, ci: bool, cc: int)
    requires
        ascii_state(r0, p, t, ci, cc),
        0 <= cc < t.len(),
        mask_upto(mask, p, p.len() as int, |c: char| byte_hits(c, ascii_fold(t[cc], ci) as int, ci)),
    ensures
        ascii_state((r0 << 1u128) | mask, p, t, ci, cc + 1),
{
    let nr = (r0 << 1u128) | mask;
    assert forall|j: u128| j < 128 && #[trigger] cleared(nr, j) implies ascii_run(p, t, ci, cc + 1, j as int) by {
        lemma_shift_or_bit(r0, mask, j);
        assert(cleared(mask, j));
        assert(j < p.len() && byte_hits(p[j as int], ascii_fold(t[cc], ci) as int, ci));
        if j > 0 {
            let jm = (j - 1) as u128;
            assert(cleared(r0, jm));
            assert(ascii_run(p, t, ci, cc, jm as int));
            assert forall|i: int| 0 <= i <= j implies #[trigger] byte_hits(p[i], ascii_fold(t[cc + 1 - 1 - j + i], ci) as int, ci) by {
                if i < j {
                    assert(byte_hits(p[i], ascii_fold(t[cc - 1 - jm + i], ci) as int, ci));
                }
            }
        }
    }
}

impl BitapMatcher {
    /// `m` is a first match the ASCII search may report: one `find_all` may
    /// report, or a window of the pattern's length whose characters the
    /// pattern accounts for with no edits.
    pub open spec fn ascii_sound_match(&self, t: Seq<char>, ranks: ScoreRanks, m: EditMatch) -> bool {
        ||| self.reported(encode_utf8(t), ranks, m)
        ||| (counts(m) == (0int, 0int, 0int, 0int) && ascii_exact_window(
            self.spec_pattern_chars(),
            t,
            self.spec_case_insensitive(),
            m.start as int,
            m.end as int,
        ))
    }

    /// The ASCII search's candidate at level `d` once `cc` characters are
    /// read: windows ending here from the pattern length less `d` to the
    /// pattern length plus `d` characters (from the start of the text when
    /// fewer were read); at level zero the first is an exact match (when the
    /// best score at level zero reaches the threshold), above it the one
    /// starting earliest, then longest, among those whose exact breakdown is
    /// within the budget and whose score reaches the threshold.
    fn ascii_level_candidate(&self, d: usize, cc: usize, text: &str, ranks: &ScoreRanks) -> (r: Option<EditMatch>)
        requires
            self.wf(),
            self.spec_pattern_chars().len() <= 64,
            self.spec_limits().max_edits <= 4,
            is_ascii_chars(text@),
            1 <= cc <= text@.len(),
            d <= self.spec_limits().max_edits,
            d <= self.spec_pattern_chars().len(),
            d == 0 ==> ascii_run(
                self.spec_pattern_chars(),
                text@,
                self.spec_case_insensitive(),
                cc as int,
                self.spec_pattern_chars().len() - 1,
            ),
        ensures
            r matches Some(m) ==> {
                &&& m.end == cc
                &&& m.start < m.end
                &&& if d == 0 {
                    &&& counts(m) == (0int, 0int, 0int, 0int)
                    &&& ascii_exact_window(self.spec_pattern_chars(), text@, self.spec_case_insensitive(), m.start as int, m.end as int)
                } else {
                    self.reported(encode_utf8(text@), *ranks, m)
                }
            },
            d == 0 ==> (r is Some <==> level_rank(ranks.level@, 0) >= ranks.threshold),
            d == 0 ==> (r matches Some(m) ==> m.start == cc - self.spec_pattern_chars().len()),
    {
        let ghost t = text@;
        let ghost p = self.spec_pattern_chars();
        let bytes = text.as_bytes();
        proof {
            is_ascii_chars_encode_utf8(t);
        }
        let text_len = bytes.len();
        let p_len = self.pattern_len;
        let max_edits = self.limits.max_edits as usize;
        let end_byte = cc;
        let min_len = p_len - d;
        let max_len = p_len + d;
        let mut best: Option<EditMatch> = None;
        let mut try_len = min_len;
        while try_len <= max_len
            invariant
                self.wf(),
                p == self.spec_pattern_chars(),
                p_len == p.len(),
                p_len <= 64,
                max_edits == self.spec_limits().max_edits,
                max_edits <= 4,
                is_ascii_chars(t),
                t == text@,
                bytes@ == encode_utf8(t),
                text_len == t.len(),
                bytes@.len() == t.len(),
                forall|i: int| 0 <= i < t.len() ==> #[trigger] t[i] as u8 == bytes@[i],
                1 <= cc <= text_len,
                end_byte == cc,
                d <= max_edits,
                d <= p_len,
                min_len == p_len - d,
                max_len == p_len + d,
                min_len <= try_len <= max_len + 1,
                d == 0 ==> ascii_run(p, t, self.spec_case_insensitive(), cc as int, p_len - 1),
                d == 0 ==> best is None,
                d == 0 && try_len > min_len ==> level_rank(ranks.level@, 0) < ranks.threshold,
                best matches Some(m) ==> m.end == cc && m.start < m.end && self.reported(bytes@, *ranks, m),
            decreases max_len + 1 - try_len,
        {
            let start_byte = if try_len == 0 {
                end_byte
            } else if try_len <= cc {
                cc - try_len
            } else {
                0
            };
            if start_byte < end_byte && start_byte < text_len {
                if d == 0 {
                    if level_lookup(&ranks.level, 0) >= ranks.threshold {
                        let m = EditMatch {
                            start: start_byte,
                            end: end_byte,
                            insertions: 0,
                            deletions: 0,
                            substitutions: 0,
                            swaps: 0,
                        };
                        proof {
                            assert(try_len == p_len);
                            assert forall|x: int| 0 <= x < p.len() implies #[trigger] byte_hits(p[x], ascii_fold(t[start_byte + x], self.spec_case_insensitive()) as int, self.spec_case_insensitive()) by {
                                assert(byte_hits(p[x], ascii_fold(t[cc - 1 - (p_len - 1) + x], self.spec_case_insensitive()) as int, self.spec_case_insensitive()));
                            }
                        }
                        return Some(m);
                    }
                } else {
                    proof {
                        let w = bytes@.subrange(start_byte as int, end_byte as int);
                        assert forall|q: int| 0 <= q < w.len() implies #[trigger] w[q] < 128 by {
                            assert(w[q] == bytes@[start_byte + q]);
                            assert(t[start_byte + q] as u8 == bytes@[start_byte + q]);
                        }
                        lemma_ascii_bytes_decode(w);
                    }
                    if let Some(cand) = self.try_window(bytes, start_byte, end_byte, max_edits, max_edits, ranks) {
                        let dominated = match best {
                            Some(b) => b.start < cand.start || (b.start == cand.start && b.end - b.start >= cand.end - cand.start),
                            None => false,
                        };
                        if !dominated {
                            best = Some(cand);
                        }
                    }
                }
            }
            try_len = try_len + 1;
        }
        best
    }
}

impl BitapMatcher {
    /// The first match in an ASCII text, reading bytes: like
    /// `find_n_non_overlapping` with a limit of one, but without the
    /// first-character filter, with candidates at a level taken from the
    /// shortest window up (the earliest start, then the longest, kept), and a
    /// pending fuzzy match reported after the budget plus one characters
    /// unless it is at least as long as the pattern.  An exact match is
    /// reported as soon as it is seen.  Returns `None` at once (without
    /// looking) when the budget exceeds four edits and the text is not empty.
    fn find_first_ascii_fast(&self, text: &str, ranks: &ScoreRanks) -> (r: Option<EditMatch>)
        requires
            self.wf(),
            ascii_chars(self.spec_pattern_chars()),
            self.spec_pattern_chars().len() <= 64,
            is_ascii_chars(text@),
        ensures
            r matches Some(m) ==> self.ascii_sound_match(text@, *ranks, m),
            text@.len() == 0 ==> r == self.empty_text_match(*ranks),
            self.spec_limits().max_edits > 4 && text@.len() > 0 ==> r is None,
            forall|s: int|
                #[trigger] self.occurs_at(text@, s) && self.spec_limits().max_edits <= 4 && level_rank(ranks.level@, 0)
                    >= ranks.threshold ==> r is Some,
    {
        let ghost t = text@;
        let ghost p = self.spec_pattern_chars();
        let ghost ci = self.spec_case_insensitive();
        let bytes = text.as_bytes();
        proof {
            is_ascii_chars_encode_utf8(t);
        }
        let text_len = bytes.len();
        let p_len = self.pattern_len;
        let max_edits = self.limits.max_edits as usize;
        let eff = if max_edits < p_len {
            max_edits
        } else {
            p_len
        };
        if text_len == 0 {
            if p_len <= max_edits {
                let m = EditMatch {
                    start: 0,
                    end: 0,
                    insertions: 0,
                    deletions: p_len as u8,
                    substitutions: 0,
                    swaps: 0,
                };
                if bitap_score(&ranks.finished, &m) >= ranks.threshold {
                    proof {
                        assert(Seq::<char>::empty() =~= t);
                        lemma_window_bytes(t, 0, 0);
                        assert(t.subrange(0, 0) =~= Seq::<char>::empty());
                        assert(encode_utf8(t).subrange(0, 0) == encode_utf8(t.subrange(0, 0)));
                        assert(self.reported(encode_utf8(t), *ranks, m));
                    }
                    return Some(m);
                }
            }
            return None;
        }
        if max_edits > 4 {
            return None;
        }
        let (cs, offs) = decode_text(text);
        let ghost has = exists|s: int| #[trigger] self.occurs_at(t, s) && level_rank(ranks.level@, 0) >= ranks.threshold;
        let ghost sw = choose|s: int| #[trigger] self.occurs_at(t, s) && level_rank(ranks.level@, 0) >= ranks.threshold;
        let mut r = fresh_states(eff);
        let mut old_r = ones_states(eff);
        let mut old_old_r = ones_states(eff);
        let mut pending: Option<(usize, EditMatch)> = None;
        let mut chars_since_pending: usize = 0;
        let mut prev_mask: u128 = !0u128;
        let mut pos: usize = 0;
        proof {
            lemma_ascii_state_fresh(p, t, ci, 0);
        }
        while pos < text_len
            invariant
                self.wf(),
                p == self.spec_pattern_chars(),
                ci == self.spec_case_insensitive(),
                p_len == p.len(),
                p_len <= 64,
                max_edits == self.spec_limits().max_edits,
                max_edits <= 4,
                eff <= max_edits,
                eff <= p_len,
                window_cap(p_len as int, max_edits as int) <= 254,
                is_ascii_chars(t),
                t == text@,
                cs@ == t,
                offsets_of(t, offs@),
                bytes@ == encode_utf8(t),
                text_len == t.len(),
                bytes@.len() == t.len(),
                forall|i: int| 0 <= i < t.len() ==> #[trigger] t[i] as u8 == bytes@[i],
                0 <= pos <= text_len,
                r@.len() == eff + 1,
                old_r@.len() == eff + 1,
                old_old_r@.len() == eff + 1,
                ascii_state(r@[0], p, t, ci, pos as int),
                pending matches Some(x) ==> {
                    let (pd, pm) = x;
                    &&& 1 <= pd <= eff
                    &&& pm.start < pm.end
                    &&& pm.start < text_len
                    &&& self.reported(bytes@, *ranks, pm)
                },
                has == (exists|s: int| #[trigger] self.occurs_at(t, s) && level_rank(ranks.level@, 0) >= ranks.threshold),
                has ==> self.occurs_at(t, sw) && level_rank(ranks.level@, 0) >= ranks.threshold && pos < sw + p_len,
                forall|j: u128|
                    j < 128 && j < pos && j < p_len && ascii_run(p, t, ci, pos as int, j as int) ==> #[trigger] cleared(r@[0], j),
            decreases text_len - pos,
        {
            let byte = bytes[pos];
            let lb: u8 = if self.case_insensitive && 65 <= byte && byte <= 90 {
                byte + 32
            } else {
                byte
            };
            proof {
                assert(t[pos as int] as u8 == byte);
                assert((t[pos as int] as u32) < 128);
                assert(ascii_fold(t[pos as int], ci) as int == lb as int);
            }
            let char_mask = self.byte_masks[lb as usize];
            let ghost r0_before = r@[0];
            shift_step(&mut r, &mut old_r, &mut old_old_r, char_mask, Some(prev_mask), eff);
            proof {
                lemma_ascii_state_step(r0_before, char_mask, p, t, ci, pos as int);
                assert(mask_upto(char_mask, p, p.len() as int, |c: char| byte_hits(c, lb as int, ci)));
                assert forall|j: u128|
                    j < 128 && j < pos + 1 && j < p_len && ascii_run(p, t, ci, pos + 1, j as int) implies #[trigger] cleared(
                    r@[0],
                    j,
                ) by {
                    lemma_ascii_run_back(p, t, ci, pos as int, j as int);
                    assert(cleared(char_mask, j));
                    if j > 0 {
                        let jm = (j - 1) as u128;
                        assert(ascii_run(p, t, ci, pos as int, jm as int));
                        assert(cleared(r0_before, jm));
                    }
                    lemma_run_bit(r0_before, char_mask, j);
                }
                if has && pos + 1 == sw + p_len {
                    lemma_exact_window_run(p, t, ci, sw);
                    let k = (p_len - 1) as u128;
                    assert(ascii_run(p, t, ci, pos + 1, k as int));
                    assert(cleared(r@[0], k));
                    lemma_bit_accept(r@[0], k);
                }
            }
            prev_mask = char_mask;
            let cc = pos + 1;
            let mut stop = false;
            let mut d: usize = 0;
            while d <= eff && !stop
                invariant
                    self.wf(),
                    p == self.spec_pattern_chars(),
                    ci == self.spec_case_insensitive(),
                    p_len == p.len(),
                    p_len <= 64,
                    max_edits == self.spec_limits().max_edits,
                    max_edits <= 4,
                    eff <= max_edits,
                    eff <= p_len,
                    window_cap(p_len as int, max_edits as int) <= 254,
                    is_ascii_chars(t),
                    t == text@,
                    bytes@ == encode_utf8(t),
                    text_len == t.len(),
                    1 <= cc <= text_len,
                    0 <= d <= eff + 1,
                    r@.len() == eff + 1,
                    ascii_state(r@[0], p, t, ci, cc as int),
                    has ==> self.occurs_at(t, sw) && level_rank(ranks.level@, 0) >= ranks.threshold && cc <= sw + p_len,
                    has && cc == sw + p_len ==> d == 0 && !stop && (r@[0] & self.accept_mask) == 0,
                    pending matches Some(x) ==> {
                        let (pd, pm) = x;
                        &&& 1 <= pd <= eff
                        &&& pm.start < pm.end
                        &&& pm.start < text_len
                        &&& self.reported(bytes@, *ranks, pm)
                    },
                decreases eff + 1 - d + (if stop {
                    0int
                } else {
                    1int
                }),
            {
                if (r[d] & self.accept_mask) == 0 {
                    proof {
                        if d == 0 {
                            lemma_accept_bit(r@[0], (p_len - 1) as u128);
                            assert(cleared(r@[0], (p_len - 1) as u128));
                        }
                    }
                    let found = self.ascii_level_candidate(d, cc, text, ranks);
                    if let Some(cand) = found {
                        if d == 0 {
                            return Some(cand);
                        }
                        let cand_len = cand.end - cand.start;
                        let dominated = match pending {
                            Some((pd, pm)) => {
                                let pm_len = pm.end - pm.start;
                                pd < d || (pd == d && pm.start < cand.start) || (pd == d && pm.start == cand.start && pm_len
                                    >= cand_len)
                            },
                            None => false,
                        };
                        if !dominated {
                            let should_reset = if d >= eff && p_len > 32 {
                                match pending {
                                    None => true,
                                    Some((pd, pm)) => {
                                        if pd == d && pm.start == cand.start {
                                            let cand_te: usize = cand.insertions as usize + cand.deletions as usize
                                                + cand.substitutions as usize + cand.swaps as usize;
                                            let pm_te: usize = pm.insertions as usize + pm.deletions as usize
                                                + pm.substitutions as usize + pm.swaps as usize;
                                            cand_te != pm_te
                                        } else {
                                            true
                                        }
                                    },
                                }
                            } else {
                                true
                            };
                            if should_reset {
                                chars_since_pending = 0;
                            }
                            pending = Some((d, cand));
                        }
                        stop = true;
                    }
                }
                if !stop {
                    d = d + 1;
                }
            }
            if let Some((pd, pm)) = pending {
                if chars_since_pending < usize::MAX {
                    chars_since_pending = chars_since_pending + 1;
                }
                let match_len = pm.end - pm.start;
                let commit_threshold: usize = if pd == 0 {
                    1
                } else if pd >= eff && p_len > 32 {
                    2
                } else if match_len >= p_len {
                    2
                } else {
                    max_edits + 1
                };
                if chars_since_pending >= commit_threshold {
                    proof {
                        lemma_ascii_offsets(t, pm.start as int);
                    }
                    return Some(self.refine_min_edit_end(pm, pm.start, &cs, &offs, bytes, ranks, Ghost(t)));
                }
            }
            pos = pos + 1;
        }
        match pending {
            Some((_, pm)) => {
                proof {
                    lemma_ascii_offsets(t, pm.start as int);
                }
                Some(self.refine_min_edit_end(pm, pm.start, &cs, &offs, bytes, ranks, Ghost(t)))
            },
            None => None,
        }
    }

    /// The first match: for an ASCII pattern of at most 64 characters in an
    /// ASCII text, the ASCII search's (falling back, when it finds nothing
    /// and the budget exceeds four edits, to the general search); otherwise
    /// the first of `find_n_non_overlapping` with a limit of one.
    pub fn find_first_non_overlapping(&self, text: &str, ranks: &ScoreRanks) -> (r: Option<EditMatch>)
        requires
            self.wf(),
        ensures
            r matches Some(m) ==> self.sound_match(text@, *ranks, m) || self.ascii_sound_match(text@, *ranks, m),
            text@.len() == 0 ==> r == self.empty_text_match(*ranks),
            forall|s: int|
                #[trigger] self.occurs_at(text@, s) && ascii_chars(self.spec_pattern_chars()) && is_ascii_chars(text@)
                    && self.spec_pattern_chars().len() <= 64 && self.spec_limits().max_edits <= 4 && level_rank(ranks.level@, 0)
                    >= ranks.threshold ==> r is Some,
    {
        if self.is_ascii && text.is_ascii() && self.pattern_len <= 64 {
            if let Some(m) = self.find_first_ascii_fast(text, ranks) {
                return Some(m);
            }
            if self.limits.max_edits <= 4 {
                return None;
            }
        }
        let matches = self.find_non_overlapping_impl(text, ranks, false, 1);
        if matches.len() > 0 {
            Some(matches[0])
        } else {
            None
        }
    }
}

/// How the streaming searches compare pattern character `pc` with text
/// character `c`: an ASCII character through the byte masks (lowercased
/// when case-insensitive), any other through the first character of its
/// lowercase mapping when case-insensitive.
pub open spec fn stream_agrees(pc: char, c: char, ci: bool) -> bool {
    if is_ascii_char(c) {
        byte_hits(pc, ascii_fold(c, ci) as int, ci)
    } else {
        pc == text_fold(c, ci)
    }
}

/// The last `j + 1` of the first `cc` characters of `t` agree one by one
/// with the first `j + 1` pattern characters.
pub open spec fn stream_run(p: Seq<char>, t: Seq<char>, ci: bool, cc: int, j: int) -> bool {
    &&& 0 <= j < p.len()
    &&& j + 1 <= cc <= t.len()
    &&& forall|i: int| 0 <= i <= j ==> #[trigger] stream_agrees(p[i], t[cc - 1 - j + i], ci)
}

/// Every cleared bit `j` of the streaming exact state stands for a run.
pub open spec fn stream_state(r0: u128, p: Seq<char>, t: Seq<char>, ci: bool, cc: int) -> bool {
    forall|j: u128| j < 128 ==> (#[trigger] cleared(r0, j) ==> stream_run(p, t, ci, cc, j as int))
}

/// The span `s..e` is `p.len()` characters of `t` from a character boundary,
/// each agreeing with the pattern character at its place.
pub open spec fn stream_exact_window(p: Seq<char>, t: Seq<char>, ci: bool, s: int, e: int) -> bool {
    exists|k: int|
        0 <= k && k + p.len() <= t.len() && #[trigger] byte_offset(t, k) == s && byte_offset(t, k + p.len()) == e
            && forall|i: int| 0 <= i < p.len() ==> #[trigger] stream_agrees(p[i], t[k + i], ci)
}

proof fn lemma_stream_state_fresh(p: Seq<char>, t: Seq<char>, ci: bool, cc: int)
    ensures
        stream_state(!0u128, p, t, ci, cc),
{
    assert forall|j: u128| j < 128 && #[trigger] cleared(!0u128, j) implies stream_run(p, t, ci, cc, j as int) by {
        lemma_all_ones(j);
    }
}

proof fn lemma_stream_state_step(r0: u128, mask: u128, p: Seq<char>, t: Seq<char>, ci: bool, cc: int)
    requires
        stream_state(r0, p, t, ci, cc),
        0 <= cc < t.len(),
        mask_upto(mask, p, p.len() as int, |pc: char| stream_agrees(pc, t[cc], ci)),
    ensures
        stream_state((r0 << 1u128) | mask, p, t, ci, cc + 1),
{
    let nr = (r0 << 1u128) | mask;
    assert forall|j: u128| j < 128 && #[trigger] cleared(nr, j) implies stream_run(p, t, ci, cc + 1, j as int) by {
        lemma_shift_or_bit(r0, mask, j);
        assert(cleared(mask, j));
        assert(j < p.len() && stream_agrees(p[j as int], t[cc], ci));
        if j > 0 {
            let jm = (j - 1) as u128;
            assert(cleared(r0, jm));
            assert(stream_run(p, t, ci, cc, jm as int));
            assert forall|i: int| 0 <= i <= j implies #[trigger] stream_agrees(p[i], t[cc + 1 - 1 - j + i], ci) by {
                if i < j {
                    assert(stream_agrees(p[i], t[cc - 1 - jm + i], ci));
                }
            }
        }
    }
}

/// Every run of the streaming exact state is recorded by a cleared bit.
pub open spec fn stream_full(r0: u128, p: Seq<char>, t: Seq<char>, ci: bool, cc: int) -> bool {
    forall|j: u128| j < 128 && j < p.len() && stream_run(p, t, ci, cc, j as int) ==> #[trigger] cleared(r0, j)
}

proof fn lemma_stream_full_fresh(r0: u128, p: Seq<char>, t: Seq<char>, ci: bool)
    ensures
        stream_full(r0, p, t, ci, 0),
{
}

/// One shift-or step records every run that the next character extends.
proof fn lemma_stream_full_step(r0: u128, mask: u128, p: Seq<char>, t: Seq<char>, ci: bool, cc: int)
    requires
        stream_full(r0, p, t, ci, cc),
        0 <= cc < t.len(),
        p.len() <= 128,
        mask_upto(mask, p, p.len() as int, |pc: char| stream_agrees(pc, t[cc], ci)),
    ensures
        stream_full((r0 << 1u128) | mask, p, t, ci, cc + 1),
{
    let nr = (r0 << 1u128) | mask;
    assert forall|j: u128| j < 128 && j < p.len() && stream_run(p, t, ci, cc + 1, j as int) implies #[trigger] cleared(nr, j) by {
        assert(stream_agrees(p[j as int], t[cc + 1 - 1 - j + j], ci));
        assert(cleared(mask, j));
        if j > 0 {
            let jm = (j - 1) as u128;
            assert forall|i: int| 0 <= i <= jm implies #[trigger] stream_agrees(p[i], t[cc - 1 - jm + i], ci) by {
                assert(stream_agrees(p[i], t[cc + 1 - 1 - j + i], ci));
            }
            assert(stream_run(p, t, ci, cc, jm as int));
            assert(cleared(r0, jm));
        }
        lemma_run_bit(r0, mask, j);
    }
}

impl BitapMatcher {
    /// The mask the streaming searches use for text character `c`.
    fn stream_mask(&self, c: char) -> (r: u128)
        requires
            self.wf(),
        ensures
            mask_upto(
                r,
                self.spec_pattern_chars(),
                self.spec_pattern_chars().len() as int,
                |pc: char| stream_agrees(pc, c, self.spec_case_insensitive()),
            ),
    {
        let ghost p = self.spec_pattern_chars();
        let ghost ci = self.spec_case_insensitive();
        if (c as u32) < 128 {
            let b = c as u32 as u8;
            let lb: u8 = if self.case_insensitive && 65 <= b && b <= 90 {
                b + 32
            } else {
                b
            };
            proof {
                assert(ascii_fold(c, ci) as int == lb as int);
            }
            let m = self.byte_masks[lb as usize];
            proof {
                assert(mask_upto(m, p, p.len() as int, |x: char| byte_hits(x, lb as int, ci)));
                assert forall|j: u128| j < 128 implies (#[trigger] cleared(m, j) <==> (j < p.len() && j < p.len() && stream_agrees(
                    p[j as int],
                    c,
                    ci,
                ))) by {
                    assert(cleared(m, j) <==> (j < p.len() && j < p.len() && byte_hits(p[j as int], lb as int, ci)));
                }
            }
            m
        } else {
            let ch = if self.case_insensitive {
                lower_first(c)
            } else {
                c
            };
            let m = self.get_mask(ch);
            proof {
                assert forall|j: u128| j < 128 implies (#[trigger] cleared(m, j) <==> (j < p.len() && j < p.len() && stream_agrees(
                    p[j as int],
                    c,
                    ci,
                ))) by {
                    assert(cleared(m, j) <==> (j < p.len() && j < p.len() && p[j as int] == ch));
                }
            }
            m
        }
    }
}

/// Every cleared bit `j` of the exact state after `cc` characters stands for
/// a run starting at or after character `s0`.
pub open spec fn runs_from(r0: u128, cc: int, s0: int) -> bool {
    forall|j: u128| j < 128 ==> (#[trigger] cleared(r0, j) ==> cc - 1 - j >= s0)
}

proof fn lemma_runs_from_step(r0: u128, mask: u128, cc: int, s0: int)
    requires
        runs_from(r0, cc, s0),
        s0 <= cc,
    ensures
        runs_from((r0 << 1u128) | mask, cc + 1, s0),
{
    let nr = (r0 << 1u128) | mask;
    assert forall|j: u128| j < 128 && #[trigger] cleared(nr, j) implies cc + 1 - 1 - j >= s0 by {
        lemma_shift_or_bit(r0, mask, j);
        if j > 0 {
            assert(cleared(r0, (j - 1) as u128));
        }
    }
}

proof fn lemma_runs_from_fresh(cc: int)
    ensures
        runs_from(!0u128, cc, cc),
{
    assert forall|j: u128| j < 128 && #[trigger] cleared(!0u128, j) implies cc - 1 - j >= cc by {
        lemma_all_ones(j);
    }
}

/// The absolute difference of two sizes.
fn size_diff(a: usize, b: usize) -> (r: usize)
    ensures
        r == (if a >= b {
            a - b
        } else {
            b - a
        }),
{
    if a >= b {
        a - b
    } else {
        b - a
    }
}

/// The distance between two integers.
pub open spec fn abs_diff(a: int, b: int) -> int {
    if a >= b {
        a - b
    } else {
        b - a
    }
}

/// Whether a candidate at level `d` replaces the best one so far: a lower
/// level, then fewer edits, then a length (in bytes) closer to the pattern's.
fn prefer_candidate(best: &Option<(usize, EditMatch)>, d: usize, cand: &EditMatch, p_len: usize) -> (r: bool)
    requires
        cand.start <= cand.end,
        best matches Some(x) ==> x.1.start <= x.1.end,
    ensures
        r == match *best {
            None => true,
            Some((bd, b)) => d < bd || (d == bd && edits_of(*cand) < edits_of(b)) || (d == bd && edits_of(*cand) == edits_of(b)
                && abs_diff(cand.end - cand.start, p_len as int) < abs_diff(b.end - b.start, p_len as int)),
        },
{
    match best {
        None => true,
        Some((bd, b)) => {
            let ct: u16 = cand.insertions as u16 + cand.deletions as u16 + cand.substitutions as u16 + cand.swaps as u16;
            let bt: u16 = b.insertions as u16 + b.deletions as u16 + b.substitutions as u16 + b.swaps as u16;
            let cdiff = size_diff(cand.end - cand.start, p_len);
            let bdiff = size_diff(b.end - b.start, p_len);
            d < *bd || (d == *bd && ct < bt) || (d == *bd && ct == bt && cdiff < bdiff)
        },
    }
}

impl BitapMatcher {
    /// `m` is a match the streaming searches may report: one `find_all` may
    /// report, or an exact occurrence the automaton itself vouches for.
    /// The pattern occurs at character `s` of `t`, each character agreeing
    /// with the pattern character at its place as the streaming searches
    /// compare them.
    pub open spec fn stream_exact_at(&self, t: Seq<char>, s: int) -> bool {
        let p = self.spec_pattern_chars();
        &&& 0 <= s
        &&& s + p.len() <= t.len()
        &&& forall|i: int| 0 <= i < p.len() ==> #[trigger] stream_agrees(p[i], t[s + i], self.spec_case_insensitive())
    }

    pub open spec fn stream_sound(&self, t: Seq<char>, ranks: ScoreRanks, m: EditMatch) -> bool {
        ||| self.reported(encode_utf8(t), ranks, m)
        ||| (counts(m) == (0int, 0int, 0int, 0int) && stream_exact_window(
            self.spec_pattern_chars(),
            t,
            self.spec_case_insensitive(),
            m.start as int,
            m.end as int,
        ))
    }

    /// The bytes reach a window of at most `limit` bytes from `start` to `end`.
    proof fn lemma_window_small(&self, bytes: Seq<u8>, start: int, end: int, limit: int)
        requires
            0 <= start <= end <= bytes.len(),
            end - start <= limit,
            limit <= 254,
        ensures
            valid_utf8(bytes.subrange(start, end)) ==> decode_utf8(bytes.subrange(start, end)).len() <= 254,
    {
        if valid_utf8(bytes.subrange(start, end)) {
            lemma_decode_len(bytes.subrange(start, end));
        }
    }
}

impl BitapMatcher {
    /// The streaming first-match search for small budgets (`levels` is the
    /// budget): the automaton with transpositions reads the text, recording
    /// for each level where its current partial match began.  When a level
    /// reaches the end of the pattern: at level zero the last pattern-length
    /// characters are an exact match, reported at once; above level zero a
    /// span from that start whose length is within the level of the
    /// pattern's has its breakdown checked, and every start up to the pattern length plus the level
    /// bytes back (at a character boundary) is checked.  Of the candidates
    /// within their level's budget whose score reaches the threshold the best
    /// (lowest level, then fewest edits, then length closest to the
    /// pattern's) is kept, and reported once it is at least as long as the
    /// pattern or `levels` more characters were read.  An empty text gives the
    /// all-deletions match when the budget allows it and its score reaches the
    /// threshold.
    fn find_first_streaming_k(&self, text: &str, ranks: &ScoreRanks, levels: usize) -> (r: Option<EditMatch>)
        requires
            self.wf(),
            levels == self.spec_limits().max_edits,
            levels <= 4,
            self.spec_pattern_chars().len() <= 64,
        ensures
            r matches Some(m) ==> self.stream_sound(text@, *ranks, m),
            text@.len() == 0 ==> r == self.empty_text_match(*ranks),
            forall|s: int| self.stream_exact_at(text@, s) ==> r is Some,
    {
        let ghost t = text@;
        let ghost p = self.spec_pattern_chars();
        let ghost ci = self.spec_case_insensitive();
        let p_len = self.pattern_len;
        let max_edits = self.limits.max_edits as usize;
        let bytes = text.as_bytes();
        let (cs, offs) = decode_text(text);
        let n = cs.len();
        let text_len = offs[n];
        proof {
            lemma_offset_bounds(t, n as int);
        }
        if n == 0 && p_len <= levels {
            let m = EditMatch {
                start: 0,
                end: 0,
                insertions: 0,
                deletions: p_len as u8,
                substitutions: 0,
                swaps: 0,
            };
            if bitap_score(&ranks.finished, &m) >= ranks.threshold {
                proof {
                    assert(Seq::<char>::empty() =~= t);
                    lemma_window_bytes(t, 0, 0);
                    assert(t.subrange(0, 0) =~= Seq::<char>::empty());
                    assert(encode_utf8(t).subrange(0, 0) == encode_utf8(t.subrange(0, 0)));
                    assert(self.reported(encode_utf8(t), *ranks, m));
                }
                return Some(m);
            }
            return None;
        }
        let mut r = fresh_states(levels);
        let mut old_r = ones_states(levels);
        let mut old_old_r = ones_states(levels);
        let mut start_bytes: Vec<usize> = Vec::new();
        let mut z: usize = 0;
        while z <= levels
            invariant
                0 <= z <= levels + 1,
                levels <= 4,
                start_bytes@.len() == z,
                forall|q: int| 0 <= q < z ==> #[trigger] start_bytes@[q] == 0,
            decreases levels + 1 - z,
        {
            start_bytes.push(0);
            z = z + 1;
        }
        let ghost mut s0: int = 0;
        let mut prev_mask: u128 = !0u128;
        let mut best: Option<(usize, EditMatch)> = None;
        let mut chars_since_first: usize = 0;
        let mut k: usize = 0;
        proof {
            lemma_stream_state_fresh(p, t, ci, 0);
            lemma_stream_full_fresh(r@[0], p, t, ci);
            lemma_runs_from_fresh(0);
            lemma_offset_bounds(t, 0);
        }
        while k < n
            invariant
                self.wf(),
                p == self.spec_pattern_chars(),
                ci == self.spec_case_insensitive(),
                p_len == p.len(),
                max_edits == self.spec_limits().max_edits,
                levels <= max_edits,
                levels <= p_len + 4,
                levels <= 128,
                p_len + levels <= 254,
                t == text@,
                cs@ == t,
                n == t.len(),
                offsets_of(t, offs@),
                bytes@ == encode_utf8(t),
                text_len == byte_offset(t, n as int),
                text_len == bytes@.len(),
                0 <= k <= n,
                r@.len() == levels + 1,
                old_r@.len() == levels + 1,
                old_old_r@.len() == levels + 1,
                start_bytes@.len() == levels + 1,
                forall|q: int| 0 <= q <= levels ==> #[trigger] start_bytes@[q] <= byte_offset(t, k as int),
                0 <= s0 <= k,
                start_bytes@[0] == byte_offset(t, s0),
                stream_state(r@[0], p, t, ci, k as int),
                stream_full(r@[0], p, t, ci, k as int),
                forall|s: int| self.stream_exact_at(t, s) ==> s + p_len > k,
                runs_from(r@[0], k as int, s0),
                best matches Some(x) ==> {
                    let (bd, bm) = x;
                    &&& bd <= levels
                    &&& bm.start <= bm.end
                    &&& self.stream_sound(t, *ranks, bm)
                },
            decreases n - k,
        {
            let c = cs[k];
            let char_mask = self.stream_mask(c);
            let ghost r0_before = r@[0];
            shift_step(&mut r, &mut old_r, &mut old_old_r, char_mask, Some(prev_mask), levels);
            proof {
                lemma_stream_state_step(r0_before, char_mask, p, t, ci, k as int);
                lemma_stream_full_step(r0_before, char_mask, p, t, ci, k as int);
                lemma_runs_from_step(r0_before, char_mask, k as int, s0);
                lemma_offset_strict(t, k as int, k + 1);
            }
            let end_byte = offs[k + 1];
            let mut d0: usize = 0;
            while d0 <= levels
                invariant
                    0 <= d0 <= levels + 1,
                    levels <= 128,
                    r@.len() == levels + 1,
                    start_bytes@.len() == levels + 1,
                    end_byte == byte_offset(t, k + 1),
                    forall|q: int| 0 <= q <= levels ==> #[trigger] start_bytes@[q] <= byte_offset(t, k + 1),
                    d0 > 0 && r@[0] == !0u128 ==> start_bytes@[0] == end_byte,
                    r@[0] != !0u128 && d0 > 0 ==> start_bytes@[0] == byte_offset(t, s0),
                    d0 == 0 ==> start_bytes@[0] == byte_offset(t, s0),
                decreases levels + 1 - d0,
            {
                if r[d0] == !0u128 {
                    start_bytes.set(d0, end_byte);
                }
                d0 = d0 + 1;
            }
            proof {
                if r@[0] == !0u128 {
                    s0 = k + 1;
                    lemma_runs_from_fresh(k + 1);
                }
                assert(start_bytes@[0] == byte_offset(t, s0));
                lemma_offset_bounds(t, k + 1);
            }
            let mut d: usize = 0;
            while d <= levels
                invariant
                self.wf(),
                p == self.spec_pattern_chars(),
                ci == self.spec_case_insensitive(),
                p_len == p.len(),
                max_edits == self.spec_limits().max_edits,
                levels <= max_edits,
                levels <= p_len + 4,
                levels <= 128,
                p_len + levels <= 254,
                t == text@,
                cs@ == t,
                n == t.len(),
                offsets_of(t, offs@),
                bytes@ == encode_utf8(t),
                text_len == byte_offset(t, n as int),
                text_len == bytes@.len(),
                    k < n,
                    0 <= d <= levels + 1,
                    r@.len() == levels + 1,
                    start_bytes@.len() == levels + 1,
                    end_byte == byte_offset(t, k + 1),
                    end_byte <= text_len,
                    forall|q: int| 0 <= q <= levels ==> #[trigger] start_bytes@[q] <= end_byte,
                    0 <= s0 <= k + 1,
                    start_bytes@[0] == byte_offset(t, s0),
                    stream_state(r@[0], p, t, ci, k + 1),
                    stream_full(r@[0], p, t, ci, k + 1),
                    forall|s: int| self.stream_exact_at(t, s) ==> s + p_len > k,
                    d > 0 ==> forall|s: int| self.stream_exact_at(t, s) ==> s + p_len != k + 1,
                    runs_from(r@[0], k + 1, s0),
                    best matches Some(x) ==> {
                        let (bd, bm) = x;
                        &&& bd <= levels
                        &&& bm.start <= bm.end
                        &&& self.stream_sound(t, *ranks, bm)
                    },
                decreases levels + 1 - d,
            {
                if (r[d] & self.accept_mask) == 0 && d == 0 {
                    proof {
                        lemma_accept_bit(r@[0], (p_len - 1) as u128);
                        assert(cleared(r@[0], (p_len - 1) as u128));
                        assert(stream_run(p, t, ci, k + 1, p_len - 1));
                    }
                    let ks = k + 1 - p_len;
                    let m = EditMatch {
                        start: offs[ks],
                        end: end_byte,
                        insertions: 0,
                        deletions: 0,
                        substitutions: 0,
                        swaps: 0,
                    };
                    proof {
                        assert forall|i: int| 0 <= i < p.len() implies #[trigger] stream_agrees(p[i], t[ks + i], ci) by {
                            assert(stream_agrees(p[i], t[k + 1 - 1 - (p_len - 1) + i], ci));
                        }
                        assert(byte_offset(t, ks as int) == m.start);
                        assert(byte_offset(t, ks + p.len()) == m.end);
                    }
                    return Some(m);
                }
                if d == 0 {
                    proof {
                        assert forall|s: int| self.stream_exact_at(t, s) implies s + p_len != k + 1 by {
                            if s + p_len == k + 1 {
                                assert forall|i: int| 0 <= i <= p_len - 1 implies #[trigger] stream_agrees(
                                    p[i],
                                    t[k + 1 - 1 - (p_len - 1) + i],
                                    ci,
                                ) by {
                                    assert(stream_agrees(p[i], t[s + i], ci));
                                }
                                assert(stream_run(p, t, ci, k + 1, p_len - 1));
                                assert(cleared(r@[0], (p_len - 1) as u128));
                                lemma_bit_accept(r@[0], (p_len - 1) as u128);
                            }
                        }
                    }
                }
                if (r[d] & self.accept_mask) == 0 {
                    let tracked_start = start_bytes[d];
                    if end_byte >= tracked_start {
                        let match_len = end_byte - tracked_start;
                        let lo = if p_len >= d {
                            p_len - d
                        } else {
                            0
                        };
                        if match_len >= lo && match_len <= p_len + d {
                            proof {
                                self.lemma_window_small(bytes@, tracked_start as int, end_byte as int, (p_len + levels) as int);
                            }
                            if let Some(cand) = self.try_window(bytes, tracked_start, end_byte, p_len, d, ranks) {
                                if prefer_candidate(&best, d, &cand, p_len) {
                                    if best.is_none() {
                                        chars_since_first = 0;
                                    }
                                    best = Some((d, cand));
                                }
                            }
                        }
                    }
                    if d > 0 {
                        let search_start = if end_byte >= p_len + d {
                            end_byte - (p_len + d)
                        } else {
                            0
                        };
                        let mut try_start = search_start;
                        while try_start < end_byte
                            invariant
                self.wf(),
                p == self.spec_pattern_chars(),
                ci == self.spec_case_insensitive(),
                p_len == p.len(),
                max_edits == self.spec_limits().max_edits,
                levels <= max_edits,
                levels <= p_len + 4,
                levels <= 128,
                p_len + levels <= 254,
                t == text@,
                cs@ == t,
                n == t.len(),
                offsets_of(t, offs@),
                bytes@ == encode_utf8(t),
                text_len == byte_offset(t, n as int),
                text_len == bytes@.len(),
                                k < n,
                                1 <= d <= levels,
                                end_byte == byte_offset(t, k + 1),
                                end_byte <= text_len,
                                search_start + p_len + d >= end_byte,
                                search_start <= try_start <= end_byte,
                                best matches Some(x) ==> {
                                    let (bd, bm) = x;
                                    &&& bd <= levels
                                    &&& bm.start <= bm.end
                                    &&& self.stream_sound(t, *ranks, bm)
                                },
                            decreases end_byte - try_start,
                        {
                            let continuation = try_start > 0 && bytes[try_start] >= 0x80 && bytes[try_start] < 0xC0;
                            if !continuation {
                                proof {
                                    self.lemma_window_small(bytes@, try_start as int, end_byte as int, (p_len + levels) as int);
                                }
                                if let Some(cand) = self.try_window(bytes, try_start, end_byte, p_len, d, ranks) {
                                    if prefer_candidate(&best, d, &cand, p_len) {
                                        if best.is_none() {
                                            chars_since_first = 0;
                                        }
                                        best = Some((d, cand));
                                    }
                                }
                            }
                            try_start = try_start + 1;
                        }
                    }
                }
                d = d + 1;
            }
            if let Some((_, bm)) = best {
                if bm.end - bm.start >= p_len {
                    return Some(bm);
                }
                if chars_since_first < usize::MAX {
                    chars_since_first = chars_since_first + 1;
                }
                if chars_since_first > levels {
                    return Some(bm);
                }
            }
            prev_mask = char_mask;
            k = k + 1;
        }
        match best {
            Some((_, bm)) => Some(bm),
            None => None,
        }
    }
}

impl BitapMatcher {
    /// The streaming first-match search for larger budgets (levels up to the
    /// budget capped at the pattern length): levels whose best score misses
    /// the threshold are skipped; when level zero accepts, the last
    /// pattern-length characters are an exact match, reported at once; at
    /// every level each start up to the
    /// pattern length plus the level bytes back (at a character boundary) is
    /// checked, an exact breakdown with no edits at level zero being reported
    /// at once.  Of the candidates within their level's budget whose score
    /// reaches the threshold the best (lowest level, then fewest edits, then
    /// length closest to the pattern's) is kept, and reported once it is at
    /// least as long as the pattern or more characters than the top level
    /// were read.  An empty text gives the all-deletions match when the
    /// budget allows it and its score reaches the threshold.
    fn find_first_streaming_large_k(&self, text: &str, ranks: &ScoreRanks) -> (r: Option<EditMatch>)
        requires
            self.wf(),
        ensures
            r matches Some(m) ==> self.stream_sound(text@, *ranks, m),
            text@.len() == 0 ==> r == self.empty_text_match(*ranks),
            forall|s: int| self.stream_exact_at(text@, s) && level_rank(ranks.level@, 0) >= ranks.threshold ==> r is Some,
    {
        let ghost t = text@;
        let ghost p = self.spec_pattern_chars();
        let ghost ci = self.spec_case_insensitive();
        let p_len = self.pattern_len;
        let max_edits = self.limits.max_edits as usize;
        let levels = if max_edits < p_len {
            max_edits
        } else {
            p_len
        };
        let bytes = text.as_bytes();
        let (cs, offs) = decode_text(text);
        let n = cs.len();
        let text_len = offs[n];
        proof {
            lemma_offset_bounds(t, n as int);
        }
        if n == 0 && p_len <= max_edits {
            let m = EditMatch {
                start: 0,
                end: 0,
                insertions: 0,
                deletions: p_len as u8,
                substitutions: 0,
                swaps: 0,
            };
            if bitap_score(&ranks.finished, &m) >= ranks.threshold {
                proof {
                    assert(Seq::<char>::empty() =~= t);
                    lemma_window_bytes(t, 0, 0);
                    assert(t.subrange(0, 0) =~= Seq::<char>::empty());
                    assert(encode_utf8(t).subrange(0, 0) == encode_utf8(t.subrange(0, 0)));
                    assert(self.reported(encode_utf8(t), *ranks, m));
                }
                return Some(m);
            }
            return None;
        }
        let mut r = fresh_states(levels);
        let mut old_r = ones_states(levels);
        let mut old_old_r = ones_states(levels);
        let mut start_bytes: Vec<usize> = Vec::new();
        let mut z: usize = 0;
        while z <= levels
            invariant
                0 <= z <= levels + 1,
                levels <= 128,
                start_bytes@.len() == z,
                forall|q: int| 0 <= q < z ==> #[trigger] start_bytes@[q] == 0,
            decreases levels + 1 - z,
        {
            start_bytes.push(0);
            z = z + 1;
        }
        let ghost mut s0: int = 0;
        let mut prev_mask: u128 = !0u128;
        let mut best: Option<(usize, EditMatch)> = None;
        let mut chars_since_first: usize = 0;
        let mut k: usize = 0;
        proof {
            lemma_stream_state_fresh(p, t, ci, 0);
            lemma_stream_full_fresh(r@[0], p, t, ci);
            lemma_runs_from_fresh(0);
            lemma_offset_bounds(t, 0);
        }
        while k < n
            invariant
                self.wf(),
                p == self.spec_pattern_chars(),
                ci == self.spec_case_insensitive(),
                p_len == p.len(),
                max_edits == self.spec_limits().max_edits,
                levels <= max_edits,
                levels <= p_len + 4,
                levels <= 128,
                p_len + levels <= 254,
                t == text@,
                cs@ == t,
                n == t.len(),
                offsets_of(t, offs@),
                bytes@ == encode_utf8(t),
                text_len == byte_offset(t, n as int),
                text_len == bytes@.len(),
                0 <= k <= n,
                r@.len() == levels + 1,
                old_r@.len() == levels + 1,
                old_old_r@.len() == levels + 1,
                start_bytes@.len() == levels + 1,
                forall|q: int| 0 <= q <= levels ==> #[trigger] start_bytes@[q] <= byte_offset(t, k as int),
                0 <= s0 <= k,
                start_bytes@[0] == byte_offset(t, s0),
                stream_state(r@[0], p, t, ci, k as int),
                stream_full(r@[0], p, t, ci, k as int),
                forall|s: int| self.stream_exact_at(t, s) && level_rank(ranks.level@, 0) >= ranks.threshold ==> s + p_len > k,
                runs_from(r@[0], k as int, s0),
                best matches Some(x) ==> {
                    let (bd, bm) = x;
                    &&& bd <= levels
                    &&& bm.start <= bm.end
                    &&& self.stream_sound(t, *ranks, bm)
                },
            decreases n - k,
        {
            let c = cs[k];
            let char_mask = self.stream_mask(c);
            let ghost r0_before = r@[0];
            shift_step(&mut r, &mut old_r, &mut old_old_r, char_mask, Some(prev_mask), levels);
            proof {
                lemma_stream_state_step(r0_before, char_mask, p, t, ci, k as int);
                lemma_stream_full_step(r0_before, char_mask, p, t, ci, k as int);
                lemma_runs_from_step(r0_before, char_mask, k as int, s0);
                lemma_offset_strict(t, k as int, k + 1);
            }
            let end_byte = offs[k + 1];
            let mut d0: usize = 0;
            while d0 <= levels
                invariant
                    0 <= d0 <= levels + 1,
                    levels <= 128,
                    r@.len() == levels + 1,
                    start_bytes@.len() == levels + 1,
                    end_byte == byte_offset(t, k + 1),
                    forall|q: int| 0 <= q <= levels ==> #[trigger] start_bytes@[q] <= byte_offset(t, k + 1),
                    d0 > 0 && r@[0] == !0u128 ==> start_bytes@[0] == end_byte,
                    r@[0] != !0u128 && d0 > 0 ==> start_bytes@[0] == byte_offset(t, s0),
                    d0 == 0 ==> start_bytes@[0] == byte_offset(t, s0),
                decreases levels + 1 - d0,
            {
                if r[d0] == !0u128 {
                    start_bytes.set(d0, end_byte);
                }
                d0 = d0 + 1;
            }
            proof {
                if r@[0] == !0u128 {
                    s0 = k + 1;
                    lemma_runs_from_fresh(k + 1);
                }
                assert(start_bytes@[0] == byte_offset(t, s0));
                lemma_offset_bounds(t, k + 1);
            }
            let mut d: usize = 0;
            while d <= levels
                invariant
                self.wf(),
                p == self.spec_pattern_chars(),
                ci == self.spec_case_insensitive(),
                p_len == p.len(),
                max_edits == self.spec_limits().max_edits,
                levels <= max_edits,
                levels <= p_len + 4,
                levels <= 128,
                p_len + levels <= 254,
                t == text@,
                cs@ == t,
                n == t.len(),
                offsets_of(t, offs@),
                bytes@ == encode_utf8(t),
                text_len == byte_offset(t, n as int),
                text_len == bytes@.len(),
                    k < n,
                    0 <= d <= levels + 1,
                    r@.len() == levels + 1,
                    start_bytes@.len() == levels + 1,
                    end_byte == byte_offset(t, k + 1),
                    end_byte <= text_len,
                    forall|q: int| 0 <= q <= levels ==> #[trigger] start_bytes@[q] <= end_byte,
                    0 <= s0 <= k + 1,
                    start_bytes@[0] == byte_offset(t, s0),
                    stream_state(r@[0], p, t, ci, k + 1),
                    stream_full(r@[0], p, t, ci, k + 1),
                    forall|s: int| self.stream_exact_at(t, s) && level_rank(ranks.level@, 0) >= ranks.threshold ==> s + p_len > k,
                    d > 0 ==> forall|s: int| self.stream_exact_at(t, s) && level_rank(ranks.level@, 0) >= ranks.threshold ==> s + p_len != k + 1,
                    runs_from(r@[0], k + 1, s0),
                    best matches Some(x) ==> {
                        let (bd, bm) = x;
                        &&& bd <= levels
                        &&& bm.start <= bm.end
                        &&& self.stream_sound(t, *ranks, bm)
                    },
                decreases levels + 1 - d,
            {
                if (r[d] & self.accept_mask) == 0 && level_lookup(&ranks.level, d) >= ranks.threshold {
                    if d == 0 {
                        proof {
                            lemma_accept_bit(r@[0], (p_len - 1) as u128);
                            assert(cleared(r@[0], (p_len - 1) as u128));
                            assert(stream_run(p, t, ci, k + 1, p_len - 1));
                        }
                        let ks = k + 1 - p_len;
                        let m = EditMatch {
                            start: offs[ks],
                            end: end_byte,
                            insertions: 0,
                            deletions: 0,
                            substitutions: 0,
                            swaps: 0,
                        };
                        proof {
                            assert forall|i: int| 0 <= i < p.len() implies #[trigger] stream_agrees(p[i], t[ks + i], ci) by {
                                assert(stream_agrees(p[i], t[k + 1 - 1 - (p_len - 1) + i], ci));
                            }
                            assert(byte_offset(t, ks as int) == m.start);
                            assert(byte_offset(t, ks + p.len()) == m.end);
                        }
                        return Some(m);
                    }
                    let search_start = if end_byte >= p_len + d {
                        end_byte - (p_len + d)
                    } else {
                        0
                    };
                    let mut try_start = search_start;
                    while try_start < end_byte
                        invariant
                self.wf(),
                p == self.spec_pattern_chars(),
                ci == self.spec_case_insensitive(),
                p_len == p.len(),
                max_edits == self.spec_limits().max_edits,
                levels <= max_edits,
                levels <= p_len + 4,
                levels <= 128,
                p_len + levels <= 254,
                t == text@,
                cs@ == t,
                n == t.len(),
                offsets_of(t, offs@),
                bytes@ == encode_utf8(t),
                text_len == byte_offset(t, n as int),
                text_len == bytes@.len(),
                            k < n,
                            d <= levels,
                            end_byte == byte_offset(t, k + 1),
                            end_byte <= text_len,
                            search_start + p_len + d >= end_byte,
                            search_start <= try_start <= end_byte,
                            best matches Some(x) ==> {
                                let (bd, bm) = x;
                                &&& bd <= levels
                                &&& bm.start <= bm.end
                                &&& self.stream_sound(t, *ranks, bm)
                            },
                        decreases end_byte - try_start,
                    {
                        let continuation = try_start > 0 && bytes[try_start] >= 0x80 && bytes[try_start] < 0xC0;
                        if !continuation {
                            proof {
                                self.lemma_window_small(bytes@, try_start as int, end_byte as int, (p_len + levels) as int);
                            }
                            if let Some(cand) = self.try_window(bytes, try_start, end_byte, p_len, d, ranks) {
                                let total: u16 = cand.insertions as u16 + cand.deletions as u16 + cand.substitutions as u16
                                    + cand.swaps as u16;
                                if d == 0 && total == 0 {
                                    return Some(cand);
                                }
                                if prefer_candidate(&best, d, &cand, p_len) {
                                    if best.is_none() {
                                        chars_since_first = 0;
                                    }
                                    best = Some((d, cand));
                                }
                            }
                        }
                        try_start = try_start + 1;
                    }
                }
                proof {
                    if d == 0 && level_rank(ranks.level@, 0) >= ranks.threshold {
                        assert forall|s: int| self.stream_exact_at(t, s) implies s + p_len != k + 1 by {
                            if s + p_len == k + 1 {
                                assert forall|i: int| 0 <= i <= p_len - 1 implies #[trigger] stream_agrees(
                                    p[i],
                                    t[k + 1 - 1 - (p_len - 1) + i],
                                    ci,
                                ) by {
                                    assert(stream_agrees(p[i], t[s + i], ci));
                                }
                                assert(stream_run(p, t, ci, k + 1, p_len - 1));
                                assert(cleared(r@[0], (p_len - 1) as u128));
                                lemma_bit_accept(r@[0], (p_len - 1) as u128);
                            }
                        }
                    }
                }
                d = d + 1;
            }
            if let Some((_, bm)) = best {
                if bm.end - bm.start >= p_len {
                    return Some(bm);
                }
                if chars_since_first < usize::MAX {
                    chars_since_first = chars_since_first + 1;
                }
                if chars_since_first > levels {
                    return Some(bm);
                }
            }
            prev_mask = char_mask;
            k = k + 1;
        }
        match best {
            Some((_, bm)) => Some(bm),
            None => None,
        }
    }

    /// The first match, by the streaming search: the small-budget one for
    /// patterns of at most 64 characters with a budget of at most four
    /// edits, the larger-budget one otherwise.
    pub fn find_first_streaming(&self, text: &str, ranks: &ScoreRanks) -> (r: Option<EditMatch>)
        requires
            self.wf(),
        ensures
            r matches Some(m) ==> self.stream_sound(text@, *ranks, m),
            text@.len() == 0 ==> r == self.empty_text_match(*ranks),
            forall|s: int| self.stream_exact_at(text@, s) && level_rank(ranks.level@, 0) >= ranks.threshold ==> r is Some,
    {
        let max_edits = self.limits.max_edits as usize;
        if self.pattern_len > 64 || max_edits > 4 {
            self.find_first_streaming_large_k(text, ranks)
        } else {
            self.find_first_streaming_k(text, ranks, max_edits)
        }
    }
}

/// The empty match at `start` that deletes all `p` pattern characters.
pub open spec fn all_deletions(start: usize, p: nat) -> EditMatch {
    EditMatch { start, end: start, insertions: 0, deletions: p as u8, substitutions: 0, swaps: 0 }
}

/// How many more insertions than deletions a match has (none when not more).
pub open spec fn excess(m: EditMatch) -> int {
    if m.insertions > m.deletions {
        m.insertions - m.deletions
    } else {
        0
    }
}

/// The place of the score of edits `e` with the insertion excess of `m`.
fn level_score(finished: &Vec<Vec<u32>>, e: usize, m: &EditMatch) -> (r: u32)
    ensures
        r as int == rank_in(finished@, e as int, excess(*m)),
{
    let y = if m.insertions > m.deletions {
        (m.insertions - m.deletions) as usize
    } else {
        0
    };
    rank_lookup(finished, e, y)
}

/// The state vectors after one step of propagation without reading: each
/// level above zero may advance over a pattern character matching the last
/// character read.
fn propagate(r: &mut Vec<u128>, last_mask: u128, levels: usize)
    requires
        levels <= 128,
        old(r)@.len() == levels + 1,
    ensures
        final(r)@.len() == levels + 1,
        final(r)@[0] == old(r)@[0],
        forall|d: int| 1 <= d <= levels ==> #[trigger] final(r)@[d] == old(r)@[d] & ((old(r)@[d] << 1u32) | last_mask),
{
    let old_r = r.clone();
    let mut d: usize = 1;
    while d <= levels
        invariant
            1 <= d <= levels + 1,
            levels <= 128,
            r@.len() == levels + 1,
            old_r@ == old(r)@,
            old(r)@.len() == levels + 1,
            r@[0] == old(r)@[0],
            forall|e: int| 1 <= e < d ==> #[trigger] r@[e] == old(r)@[e] & ((old(r)@[e] << 1u32) | last_mask),
            forall|e: int| d <= e <= levels ==> #[trigger] r@[e] == old(r)@[e],
        decreases levels + 1 - d,
    {
        let match_d = (old_r[d] << 1) | last_mask;
        let v = r[d] & match_d;
        r.set(d, v);
        d = d + 1;
    }
}

/// The `p.len()` bytes of `b` from `start` are each accounted for by the
/// pattern character at its place (so they are ASCII).
pub open spec fn anchored_exact(p: Seq<char>, ci: bool, b: Seq<u8>, start: int) -> bool {
    &&& 0 <= start
    &&& start + p.len() <= b.len()
    &&& forall|x: int| 0 <= x < p.len() ==> #[trigger] byte_hits(p[x], b[start + x] as int, ci)
}

/// The `len` bytes of `b` from `s` are accounted for by the first `len`
/// pattern characters.
pub open spec fn byte_run(p: Seq<char>, ci: bool, b: Seq<u8>, s: int, len: int) -> bool {
    forall|x: int| 0 <= x < len ==> #[trigger] byte_hits(p[x], b[s + x] as int, ci)
}

proof fn lemma_byte_run_at(p: Seq<char>, ci: bool, b: Seq<u8>, s: int, len: int, x: int)
    requires
        byte_run(p, ci, b, s, len),
        0 <= x < len,
    ensures
        byte_hits(p[x], b[s + x] as int, ci),
{
}

proof fn lemma_byte_run_prefix(p: Seq<char>, ci: bool, b: Seq<u8>, s: int, len: int, len2: int)
    requires
        byte_run(p, ci, b, s, len),
        0 <= len2 <= len,
    ensures
        byte_run(p, ci, b, s, len2),
{
    assert forall|x: int| 0 <= x < len2 implies #[trigger] byte_hits(p[x], b[s + x] as int, ci) by {
        lemma_byte_run_at(p, ci, b, s, len, x);
    }
}

proof fn lemma_byte_run_exact(p: Seq<char>, ci: bool, b: Seq<u8>, s: int)
    requires
        anchored_exact(p, ci, b, s),
    ensures
        byte_run(p, ci, b, s, p.len() as int),
{
    assert forall|x: int| 0 <= x < p.len() implies #[trigger] byte_hits(p[x], b[s + x] as int, ci) by {
        assert(byte_hits(p[x], b[s + x] as int, ci));
    }
}

/// A byte a pattern character accounts for is ASCII.
proof fn lemma_hits_ascii(c: char, b: int, ci: bool)
    requires
        byte_hits(c, b, ci),
    ensures
        0 <= b < 128,
{
}

/// The `len` characters of `t` from `s` agree, as the streaming searches
/// read them, with the first `len` pattern characters.
pub open spec fn char_run(p: Seq<char>, ci: bool, t: Seq<char>, s: int, len: int) -> bool {
    forall|x: int| 0 <= x < len ==> #[trigger] stream_agrees(p[x], t[s + x], ci)
}

proof fn lemma_char_run_at(p: Seq<char>, ci: bool, t: Seq<char>, s: int, len: int, x: int)
    requires
        char_run(p, ci, t, s, len),
        0 <= x < len,
    ensures
        stream_agrees(p[x], t[s + x], ci),
{
}

proof fn lemma_char_run_prefix(p: Seq<char>, ci: bool, t: Seq<char>, s: int, len: int, len2: int)
    requires
        char_run(p, ci, t, s, len),
        0 <= len2 <= len,
    ensures
        char_run(p, ci, t, s, len2),
{
    assert forall|x: int| 0 <= x < len2 implies #[trigger] stream_agrees(p[x], t[s + x], ci) by {
        lemma_char_run_at(p, ci, t, s, len, x);
    }
}

/// An exact window ending before `s + p.len()` is a run of the whole pattern there.
proof fn lemma_exact_window_run(p: Seq<char>, t: Seq<char>, ci: bool, s: int)
    requires
        ascii_exact_window(p, t, ci, s, s + p.len()),
        p.len() > 0,
    ensures
        ascii_run(p, t, ci, s + p.len(), p.len() - 1),
{
    let cc = s + p.len();
    let j = p.len() - 1;
    assert forall|i: int| 0 <= i <= j implies #[trigger] byte_hits(p[i], ascii_fold(t[cc - 1 - j + i], ci) as int, ci) by {
        assert(cc - 1 - j + i == s + i);
        assert(byte_hits(p[i], ascii_fold(t[s + i], ci) as int, ci));
    }
}

/// An exact run of `j + 1` characters ending before `cc + 1` ends with
/// character `cc` matching `p[j]`, after an exact run of `j` characters
/// ending before `cc`.
proof fn lemma_exact_run_back(p: Seq<char>, t: Seq<char>, ci: bool, cc: int, j: int)
    requires
        exact_run(p, t, ci, cc + 1, j),
    ensures
        text_fold(t[cc], ci) == p[j],
        j > 0 ==> exact_run(p, t, ci, cc, j - 1),
{
    assert(text_fold(t[cc + 1 - 1 - j + j], ci) == p[j]);
    assert(cc + 1 - 1 - j + j == cc);
    if j > 0 {
        assert forall|i: int| 0 <= i <= j - 1 implies #[trigger] text_fold(t[cc - 1 - (j - 1) + i], ci) == p[i] by {
            assert(text_fold(t[cc + 1 - 1 - j + i], ci) == p[i]);
            assert(cc + 1 - 1 - j + i == cc - 1 - (j - 1) + i);
        }
    }
}

/// Some match of `v` spans bytes `a..b`.
pub open spec fn has_span(v: Seq<EditMatch>, a: int, b: int) -> bool {
    exists|i: int| 0 <= i < v.len() && (#[trigger] v[i]).start == a && v[i].end == b
}

/// Spans survive recording.
proof fn lemma_spans_kept(old_v: Seq<EditMatch>, new_v: Seq<EditMatch>, a: int, b: int)
    requires
        new_v.len() >= old_v.len(),
        forall|i: int| 0 <= i < old_v.len() ==> same_span(#[trigger] new_v[i], old_v[i]),
        has_span(old_v, a, b),
    ensures
        has_span(new_v, a, b),
{
    let i = choose|i: int| 0 <= i < old_v.len() && (#[trigger] old_v[i]).start == a && old_v[i].end == b;
    assert(same_span(new_v[i], old_v[i]));
}

/// A run of `j + 1` characters ending before `cc + 1` ends with character
/// `cc` matching `p[j]`, after a run of `j` characters ending before `cc`.
proof fn lemma_ascii_run_back(p: Seq<char>, t: Seq<char>, ci: bool, cc: int, j: int)
    requires
        ascii_run(p, t, ci, cc + 1, j),
    ensures
        byte_hits(p[j], ascii_fold(t[cc], ci) as int, ci),
        j > 0 ==> ascii_run(p, t, ci, cc, j - 1),
{
    assert(byte_hits(p[j], ascii_fold(t[cc + 1 - 1 - j + j], ci) as int, ci));
    assert(cc + 1 - 1 - j + j == cc);
    if j > 0 {
        assert forall|i: int| 0 <= i <= j - 1 implies #[trigger] byte_hits(p[i], ascii_fold(t[cc - 1 - (j - 1) + i], ci) as int, ci) by {
            assert(byte_hits(p[i], ascii_fold(t[cc + 1 - 1 - j + i], ci) as int, ci));
            assert(cc + 1 - 1 - j + i == cc - 1 - (j - 1) + i);
        }
    }
}

proof fn lemma_run_bit(x: u128, y: u128, j: u128)
    by (bit_vector)
    requires
        j < 128,
        (y >> j) & 1 == 0,
        j == 0 || (x >> ((j - 1) as u128)) & 1 == 0,
    ensures
        (((x << 1u128) | y) >> j) & 1 == 0,
{
}

proof fn lemma_bit_accept(x: u128, k: u128)
    by (bit_vector)
    requires
        k < 128,
        (x >> k) & 1 == 0,
    ensures
        x & (1u128 << k) == 0,
{
}

impl BitapMatcher {
    /// `m` is what a search anchored at byte `start` may report: a match from
    /// `start` whose counts are the exact breakdown of its span, with a score
    /// (at some level within the budget) placed at or above the threshold; at
    /// or past the end of the text, the all-deletions match at `start`.
    pub open spec fn anchored(&self, b: Seq<u8>, ranks: ScoreRanks, start: int, m: EditMatch) -> bool {
        &&& m.start == start
        &&& if start >= b.len() {
            &&& m.end == start
            &&& counts(m) == (0int, self.spec_pattern_chars().len() as int, 0int, 0int)
            &&& bitap_rank(ranks.finished@, m) >= ranks.threshold
        } else {
            &&& m.end <= b.len()
            &&& start <= m.end
            &&& counts(m) == window_breakdown(self.spec_pattern_chars(), self.spec_case_insensitive(), b.subrange(start, m.end as int))
            &&& exists|d: int| 0 <= d <= self.spec_limits().max_edits && #[trigger] rank_in(ranks.finished@, d, excess(m)) >= ranks.threshold
        }
    }

    /// The match from `start` with the breakdown of window `start..end`,
    /// when the score at level `d` of that breakdown reaches the threshold
    /// (and, with `bound`, its edits are at most `d`).
    fn anchored_window(&self, bytes: &[u8], start: usize, end: usize, d: usize, bound: bool, ranks: &ScoreRanks) -> (r:
        Option<EditMatch>)
        requires
            self.wf(),
            start <= end <= bytes@.len(),
            start < bytes@.len(),
            valid_utf8(bytes@.subrange(start as int, end as int)) ==> decode_utf8(
                bytes@.subrange(start as int, end as int),
            ).len() <= 254,
            d <= self.spec_limits().max_edits,
        ensures
            r matches Some(m) ==> self.anchored(bytes@, *ranks, start as int, m),
            r matches Some(m) ==> m == self.window_match(bytes@, start as int, end as int),
            bound ==> (r is Some <==> (edits_of(self.window_match(bytes@, start as int, end as int)) <= d && bitap_rank(
                ranks.finished@,
                self.window_match(bytes@, start as int, end as int),
            ) >= ranks.threshold)),
            !bound ==> (r is Some <==> rank_in(
                ranks.finished@,
                d as int,
                excess(self.window_match(bytes@, start as int, end as int)),
            ) >= ranks.threshold),
    {
        let window = vstd::slice::slice_subrange(bytes, start, end);
        let (ins, del, sub, swp) = self.compute_exact_edit_breakdown(window);
        let m = EditMatch { start, end, insertions: ins, deletions: del, substitutions: sub, swaps: swp };
        if bound {
            let total: u16 = ins as u16 + del as u16 + sub as u16 + swp as u16;
            if total as usize > d {
                return None;
            }
            if bitap_score(&ranks.finished, &m) >= ranks.threshold {
                proof {
                    assert(rank_in(ranks.finished@, edits_of(m), excess(m)) >= ranks.threshold);
                }
                return Some(m);
            }
            return None;
        }
        if level_score(&ranks.finished, d, &m) >= ranks.threshold {
            proof {
                assert(rank_in(ranks.finished@, d as int, excess(m)) >= ranks.threshold);
            }
            Some(m)
        } else {
            None
        }
    }

    /// The search anchored at `start` for an ASCII pattern of at most 64
    /// characters and a budget of at most four, reading up to the pattern
    /// length plus the budget plus one bytes (each through the mask of its low
    /// seven bits): the first time a level reaches the end of the pattern and
    /// the score of the span's breakdown at that level reaches the threshold,
    /// that match; when fewer bytes than the pattern has characters were read,
    /// further steps advance over characters matching the last byte, and a
    /// level reaching the end reports the span if its breakdown is within the
    /// level and its score reaches the threshold.
    fn at_position_ascii(&self, text: &str, start: usize, ranks: &ScoreRanks) -> (r: Option<EditMatch>)
        requires
            self.wf(),
            ascii_chars(self.spec_pattern_chars()),
            self.spec_pattern_chars().len() <= 64,
            self.spec_limits().max_edits <= 4,
            start < encode_utf8(text@).len(),
        ensures
            r matches Some(m) ==> self.anchored(encode_utf8(text@), *ranks, start as int, m),
            anchored_exact(self.spec_pattern_chars(), self.spec_case_insensitive(), encode_utf8(text@), start as int) && rank_in(
                ranks.finished@,
                0,
                excess(self.window_match(encode_utf8(text@), start as int, start + self.spec_pattern_chars().len())),
            ) >= ranks.threshold ==> r is Some,
    {
        let ghost p = self.spec_pattern_chars();
        let ghost ci = self.spec_case_insensitive();
        let ghost goal = anchored_exact(p, ci, encode_utf8(text@), start as int) && rank_in(
            ranks.finished@,
            0,
            excess(self.window_match(encode_utf8(text@), start as int, start + p.len())),
        ) >= ranks.threshold;
        let bytes = text.as_bytes();
        let p_len = self.pattern_len;
        let levels = self.limits.max_edits as usize;
        let max_window = p_len + levels;
        let end_limit = if (start as u128) + (max_window as u128) + 1 < bytes.len() as u128 {
            start + max_window + 1
        } else {
            bytes.len()
        };
        let search_len = end_limit - start;
        let mut r = fresh_states(levels);
        let mut old_r = ones_states(levels);
        let mut old_old_r = ones_states(levels);
        let mut prev_mask: Option<u128> = None;
        let mut i: usize = 0;
        while i < search_len
            invariant
                self.wf(),
                p_len == self.spec_pattern_chars().len(),
                p_len <= 64,
                levels == self.spec_limits().max_edits,
                levels <= 4,
                bytes@ == encode_utf8(text@),
                start + search_len == end_limit,
                end_limit <= bytes@.len(),
                search_len <= max_window + 1,
                max_window == p_len + levels,
                0 <= i <= search_len,
                r@.len() == levels + 1,
                old_r@.len() == levels + 1,
                old_old_r@.len() == levels + 1,
                p == self.spec_pattern_chars(),
                ci == self.spec_case_insensitive(),
                goal == (anchored_exact(p, ci, bytes@, start as int) && rank_in(
                    ranks.finished@,
                    0,
                    excess(self.window_match(bytes@, start as int, start + p.len())),
                ) >= ranks.threshold),
                goal ==> i < p_len,
                forall|j: u128|
                    j < 128 && j < i && j < p_len && byte_run(p, ci, bytes@, start + i - j - 1, j + 1) ==> #[trigger] cleared(r@[0], j),
            decreases search_len - i,
        {
            let byte = bytes[start + i];
            assert(byte & 0x7F < 128) by (bit_vector);
            let char_mask = self.byte_masks[(byte & 0x7F) as usize];
            let ghost r0 = r@[0];
            shift_step(&mut r, &mut old_r, &mut old_old_r, char_mask, prev_mask, levels);
            proof {
                assert(byte < 128 ==> byte & 0x7F == byte) by (bit_vector);
                assert(mask_upto(char_mask, p, p.len() as int, |c: char| byte_hits(c, (byte & 0x7F) as int, ci)));
                assert forall|j: u128|
                    j < 128 && j < i + 1 && j < p_len && byte_run(p, ci, bytes@, start + i - j, j + 1) implies #[trigger] cleared(
                    r@[0],
                    j,
                ) by {
                    let s1: int = start + i - j;
                    let jj: int = j as int;
                    assert(byte_run(p, ci, bytes@, s1, jj + 1));
                    lemma_byte_run_at(p, ci, bytes@, s1, jj + 1, jj);
                    lemma_hits_ascii(p[jj], bytes@[s1 + jj] as int, ci);
                    assert(s1 + jj == start + i);
                    assert(cleared(char_mask, j));
                    if j > 0 {
                        let jm = (j - 1) as u128;
                        lemma_byte_run_prefix(p, ci, bytes@, s1, jj + 1, jm + 1);
                        assert(s1 == start + i - jm - 1);
                        assert(byte_run(p, ci, bytes@, start + i - jm - 1, jm + 1));
                        assert(cleared(r0, jm));
                    }
                    lemma_run_bit(r0, char_mask, j);
                }
                if goal && i + 1 == p_len {
                    let k = (p_len - 1) as u128;
                    lemma_byte_run_exact(p, ci, bytes@, start as int);
                    assert(byte_run(p, ci, bytes@, start + i - k, k + 1));
                    assert(cleared(r@[0], k));
                    lemma_bit_accept(r@[0], k);
                }
            }
            let end = start + i + 1;
            let mut d: usize = 0;
            while d <= levels
                invariant
                    self.wf(),
                    levels == self.spec_limits().max_edits,
                    levels <= 4,
                    bytes@ == encode_utf8(text@),
                    start < end <= bytes@.len(),
                    end - start <= 69,
                    0 <= d <= levels + 1,
                    r@.len() == levels + 1,
                    p == self.spec_pattern_chars(),
                    goal ==> i < p_len,
                    goal && i + 1 == p_len ==> d == 0 && end == start + p.len() && (r@[0] & self.accept_mask) == 0
                        && rank_in(ranks.finished@, 0, excess(self.window_match(bytes@, start as int, end as int))) >= ranks.threshold,
                decreases levels + 1 - d,
            {
                if (r[d] & self.accept_mask) == 0 {
                    proof {
                        self.lemma_window_small(bytes@, start as int, end as int, 69);
                    }
                    if let Some(m) = self.anchored_window(bytes, start, end, d, false, ranks) {
                        return Some(m);
                    }
                }
                d = d + 1;
            }
            prev_mask = Some(char_mask);
            i = i + 1;
        }
        let end = start + search_len;
        if let Some(last_mask) = prev_mask {
            let chars_short = if p_len > search_len {
                p_len - search_len
            } else {
                0
            };
            let rounds = if chars_short < levels {
                chars_short
            } else {
                levels
            };
            let mut round: usize = 0;
            while round < rounds
                invariant
                    self.wf(),
                    levels == self.spec_limits().max_edits,
                    levels <= 4,
                    bytes@ == encode_utf8(text@),
                    start < end <= bytes@.len(),
                    end - start <= 69,
                    r@.len() == levels + 1,
                decreases rounds - round,
            {
                propagate(&mut r, last_mask, levels);
                let mut d: usize = 0;
                while d <= levels
                    invariant
                        self.wf(),
                        levels == self.spec_limits().max_edits,
                        levels <= 4,
                        bytes@ == encode_utf8(text@),
                        start < end <= bytes@.len(),
                        end - start <= 69,
                        0 <= d <= levels + 1,
                        r@.len() == levels + 1,
                    decreases levels + 1 - d,
                {
                    if (r[d] & self.accept_mask) == 0 {
                        proof {
                            self.lemma_window_small(bytes@, start as int, end as int, 69);
                        }
                        if let Some(m) = self.anchored_window(bytes, start, end, d, true, ranks) {
                            return Some(m);
                        }
                    }
                    d = d + 1;
                }
                round = round + 1;
            }
        }
        None
    }
}

impl BitapMatcher {
    /// The pattern occurs exactly at character `s` of `t`.
    pub open spec fn exact_at(&self, t: Seq<char>, s: int) -> bool {
        let p = self.spec_pattern_chars();
        &&& 0 <= s
        &&& s + p.len() <= t.len()
        &&& forall|x: int| 0 <= x < p.len() ==> t[s + x] == #[trigger] p[x]
    }

    /// Exact occurrences are wanted: matching is case-sensitive, and both the
    /// best score at level zero and the score of an exact match reach the
    /// threshold.
    pub open spec fn exact_wanted(&self, ranks: ScoreRanks) -> bool {
        &&& !self.spec_case_insensitive()
        &&& level_rank(ranks.level@, 0) >= ranks.threshold
        &&& rank_in(ranks.finished@, 0, 0) >= ranks.threshold
    }

    /// Every wanted exact occurrence of `t` ending by character `lim` has its
    /// span in `v`.
    spec fn exact_found(&self, t: Seq<char>, ranks: ScoreRanks, v: Seq<EditMatch>, lim: int) -> bool {
        forall|s: int|
            #[trigger] self.exact_at(t, s) && self.exact_wanted(ranks) && s + self.spec_pattern_chars().len() <= lim ==> has_span(
                v,
                byte_offset(t, s),
                byte_offset(t, s + self.spec_pattern_chars().len()),
            )
    }

    /// An exact occurrence is a window with no edit whose bytes spell the pattern.
    proof fn lemma_exact_window_zero(&self, t: Seq<char>, s: int)
        requires
            self.wf(),
            !self.spec_case_insensitive(),
            self.exact_at(t, s),
        ensures
            encode_utf8(t).subrange(byte_offset(t, s), byte_offset(t, s + self.spec_pattern_chars().len())) == encode_utf8(
                self.spec_pattern(),
            ),
            counts(self.window_match(encode_utf8(t), byte_offset(t, s), byte_offset(t, s + self.spec_pattern_chars().len())))
                == (0int, 0int, 0int, 0int),
    {
        let p = self.spec_pattern_chars();
        lemma_window_bytes(t, s, s + p.len());
        let sub = t.subrange(s, s + p.len());
        assert(sub =~= p);
        let w = encode_utf8(sub);
        lemma_window_breakdown_exact(p, false, w);
        lemma_osa_same(fold_ascii(p, false), fold_ascii(decode_utf8(w), false), p.len() as int);
    }

    /// The pattern occurs exactly (as the ASCII search reads it) at
    /// character `s` of the ASCII text `t`.
    pub open spec fn occurs_at(&self, t: Seq<char>, s: int) -> bool {
        ascii_exact_window(self.spec_pattern_chars(), t, self.spec_case_insensitive(), s, s + self.spec_pattern_chars().len())
    }

    /// What the searches report for an empty text: the match deleting the
    /// whole pattern, when the budget allows it and its score reaches the
    /// threshold.
    pub open spec fn empty_text_match(&self, ranks: ScoreRanks) -> Option<EditMatch> {
        let m = all_deletions(0, self.spec_pattern_chars().len());
        if self.spec_pattern_chars().len() <= self.spec_limits().max_edits && bitap_rank(ranks.finished@, m) >= ranks.threshold {
            Some(m)
        } else {
            None
        }
    }

    /// The anchored search skips levels whose best score misses the
    /// threshold: not for patterns of at most 64 characters with a budget of
    /// at most four.
    pub open spec fn skips_levels(&self) -> bool {
        !(self.spec_limits().max_edits <= 4 && self.spec_pattern_chars().len() <= 64)
    }

    /// The pattern occurs at character `k0` of `t` as the general anchored
    /// search reads it (on ASCII text characters when the pattern is ASCII),
    /// level zero is not skipped (with `prefilter`), and the score of that
    /// window's breakdown at level zero reaches the threshold.
    pub open spec fn general_goal(&self, t: Seq<char>, ranks: ScoreRanks, k0: int, prefilter: bool) -> bool {
        let p = self.spec_pattern_chars();
        &&& 0 <= k0
        &&& k0 + p.len() <= t.len()
        &&& char_run(p, self.spec_case_insensitive(), t, k0, p.len() as int)
        &&& (ascii_chars(p) ==> forall|x: int| k0 <= x < k0 + p.len() ==> (#[trigger] t[x] as u32) < 128)
        &&& (prefilter ==> level_rank(ranks.level@, 0) >= ranks.threshold)
        &&& rank_in(
            ranks.finished@,
            0,
            excess(self.window_match(encode_utf8(t), byte_offset(t, k0), byte_offset(t, k0 + p.len()))),
        ) >= ranks.threshold
    }

    /// The search anchored at the character starting at byte `start`, over
    /// levels `0..=levels`, reading characters while fewer than the pattern
    /// length plus `levels` plus one were read and the byte limit (that many
    /// bytes for an ASCII pattern, four times as many plus one otherwise) is
    /// not reached: the first time a level reaches the end of the pattern
    /// (with `prefilter`, at a level whose best score reaches the threshold)
    /// and the score of the span's breakdown at that level reaches the
    /// threshold, that match; when fewer characters than the pattern has were
    /// read, further steps advance over characters matching the last one, and
    /// a level reaching the end reports the span if its breakdown is within
    /// the level and its score reaches the threshold.
    fn at_position_general(&self, text: &str, start: usize, ranks: &ScoreRanks, levels: usize, prefilter: bool) -> (r:
        Option<EditMatch>)
        requires
            self.wf(),
            levels <= self.spec_limits().max_edits,
            levels <= 128,
            self.spec_pattern_chars().len() + levels + 1 <= 254,
            char_start(text@, start as int),
        ensures
            r matches Some(m) ==> self.anchored(encode_utf8(text@), *ranks, start as int, m),
            forall|k: int|
                0 <= k <= text@.len() && byte_offset(text@, k) == start && #[trigger] self.general_goal(text@, *ranks, k, prefilter)
                    ==> r is Some,
    {
        let ghost t = text@;
        let ghost p = self.spec_pattern_chars();
        let ghost ci = self.spec_case_insensitive();
        let bytes = text.as_bytes();
        let (cs, offs) = decode_text(text);
        let n = cs.len();
        let p_len = self.pattern_len;
        proof {
            lemma_offset_bounds(t, n as int);
        }
        let k0 = match char_index_at(&offs, n, start) {
            Some(x) => x,
            None => {
                proof {
                    assert forall|k: int|
                        0 <= k <= t.len() && byte_offset(t, k) == start && #[trigger] self.general_goal(t, *ranks, k, prefilter)
                            implies false by {
                        assert(offs@[k] == byte_offset(t, k));
                    }
                }
                return None;
            },
        };
        let ghost goal = self.general_goal(t, *ranks, k0 as int, prefilter);
        proof {
            assert forall|k: int|
                0 <= k <= t.len() && byte_offset(t, k) == start && #[trigger] self.general_goal(t, *ranks, k, prefilter) implies k
                == k0 by {
                if k < k0 {
                    lemma_offset_strict(t, k, k0 as int);
                } else if k > k0 {
                    lemma_offset_strict(t, k0 as int, k);
                }
            }
        }
        let max_window_chars = p_len + levels;
        let max_window_bytes = if self.is_ascii {
            max_window_chars + 1
        } else {
            max_window_chars * 4 + 1
        };
        let end_limit = if (start as u128) + (max_window_bytes as u128) < bytes.len() as u128 {
            start + max_window_bytes
        } else {
            bytes.len()
        };
        let mut r = fresh_states(levels);
        let mut old_r = ones_states(levels);
        let mut old_old_r = ones_states(levels);
        let mut prev_mask: Option<u128> = None;
        let mut ck: usize = k0;
        let mut char_count: usize = 0;
        let mut pos: usize = start;
        while pos < end_limit && char_count <= max_window_chars
            invariant
                self.wf(),
                p_len == self.spec_pattern_chars().len(),
                levels <= self.spec_limits().max_edits,
                levels <= 128,
                p_len + levels + 1 <= 254,
                max_window_chars == p_len + levels,
                t == text@,
                cs@ == t,
                n == t.len(),
                offsets_of(t, offs@),
                bytes@ == encode_utf8(t),
                bytes@.len() == byte_offset(t, n as int),
                end_limit <= bytes@.len(),
                k0 < n,
                byte_offset(t, k0 as int) == start,
                k0 <= ck <= n,
                char_count == ck - k0,
                char_count <= max_window_chars + 1,
                pos == byte_offset(t, ck as int),
                prev_mask is Some <==> ck > k0,
                r@.len() == levels + 1,
                old_r@.len() == levels + 1,
                old_old_r@.len() == levels + 1,
                p == self.spec_pattern_chars(),
                ci == self.spec_case_insensitive(),
                self.is_ascii == ascii_chars(p),
                max_window_bytes == (if ascii_chars(p) {
                    max_window_chars + 1
                } else {
                    max_window_chars * 4 + 1
                }),
                end_limit == (if start + max_window_bytes < bytes@.len() {
                    start + max_window_bytes
                } else {
                    bytes@.len() as int
                }),
                goal == self.general_goal(t, *ranks, k0 as int, prefilter),
                goal ==> char_count < p_len,
                forall|j: u128|
                    j < 128 && j < char_count && j < p_len && char_run(p, ci, t, ck - j - 1, j + 1) ==> #[trigger] cleared(r@[0], j),
            decreases n - ck,
        {
            proof {
                if ck == n {
                    assert(pos == bytes@.len());
                }
            }
            let c = cs[ck];
            let char_mask = self.stream_mask(c);
            let ghost r0 = r@[0];
            shift_step(&mut r, &mut old_r, &mut old_old_r, char_mask, prev_mask, levels);
            let end = offs[ck + 1];
            proof {
                lemma_window_bytes(t, k0 as int, ck + 1);
                lemma_offset_strict(t, k0 as int, ck + 1);
                assert forall|j: u128|
                    j < 128 && j < char_count + 1 && j < p_len && char_run(p, ci, t, ck - j, j + 1) implies #[trigger] cleared(
                    r@[0],
                    j,
                ) by {
                    let s1: int = ck - j;
                    let jj: int = j as int;
                    lemma_char_run_at(p, ci, t, s1, jj + 1, jj);
                    assert(s1 + jj == ck);
                    assert(cleared(char_mask, j));
                    if j > 0 {
                        let jm = (j - 1) as u128;
                        lemma_char_run_prefix(p, ci, t, s1, jj + 1, jm + 1);
                        assert(s1 == ck - jm - 1);
                        assert(cleared(r0, jm));
                    }
                    lemma_run_bit(r0, char_mask, j);
                }
                if goal && char_count + 1 == p_len {
                    let k = (p_len - 1) as u128;
                    assert(char_run(p, ci, t, ck - k, k + 1));
                    assert(cleared(r@[0], k));
                    lemma_bit_accept(r@[0], k);
                }
            }
            let mut d: usize = 0;
            while d <= levels
                invariant
                    self.wf(),
                    levels <= self.spec_limits().max_edits,
                    levels <= 128,
                    p_len + levels + 1 <= 254,
                    p_len == self.spec_pattern_chars().len(),
                    t == text@,
                    bytes@ == encode_utf8(t),
                    start < end <= bytes@.len(),
                    k0 < ck + 1 <= n,
                    n == t.len(),
                    ck + 1 - k0 <= max_window_chars + 1,
                    max_window_chars == p_len + levels,
                    bytes@.subrange(start as int, end as int) == encode_utf8(t.subrange(k0 as int, ck + 1)),
                    decode_utf8(encode_utf8(t.subrange(k0 as int, ck + 1))) == t.subrange(k0 as int, ck + 1),
                    0 <= d <= levels + 1,
                    r@.len() == levels + 1,
                    goal ==> char_count < p_len,
                    char_count == ck - k0,
                    end == byte_offset(t, ck + 1),
                    goal && char_count + 1 == p_len ==> d == 0 && (r@[0] & self.accept_mask) == 0 && (prefilter ==> level_rank(
                        ranks.level@,
                        0,
                    ) >= ranks.threshold) && rank_in(
                        ranks.finished@,
                        0,
                        excess(self.window_match(bytes@, start as int, end as int)),
                    ) >= ranks.threshold,
                decreases levels + 1 - d,
            {
                if (r[d] & self.accept_mask) == 0 {
                    proof {
                        assert(t.subrange(k0 as int, ck + 1).len() == ck + 1 - k0);
                    }
                    if !prefilter || level_lookup(&ranks.level, d) >= ranks.threshold {
                        if let Some(m) = self.anchored_window(bytes, start, end, d, false, ranks) {
                            return Some(m);
                        }
                    }
                }
                d = d + 1;
            }
            prev_mask = Some(char_mask);
            pos = end;
            char_count = char_count + 1;
            ck = ck + 1;
        }
        proof {
            if goal {
                lemma_offset_gap_upper(t, k0 as int, ck as int);
                lemma_offset_strict(t, ck as int, n as int);
                if ascii_chars(p) {
                    assert forall|x: int| k0 <= x < ck implies (#[trigger] t[x] as u32) < 128 by {
                        assert(k0 <= x < k0 + p.len());
                    }
                }
                assert(false);
            }
        }
        let end = pos;
        if let Some(last_mask) = prev_mask {
            proof {
                lemma_window_bytes(t, k0 as int, ck as int);
                lemma_offset_strict(t, k0 as int, ck as int);
            }
            let chars_short = if p_len > char_count {
                p_len - char_count
            } else {
                0
            };
            let rounds = if chars_short < levels {
                chars_short
            } else {
                levels
            };
            let mut round: usize = 0;
            while round < rounds
                invariant
                    self.wf(),
                    levels <= self.spec_limits().max_edits,
                    levels <= 128,
                    p_len + levels + 1 <= 254,
                    t == text@,
                    bytes@ == encode_utf8(t),
                    start < end <= bytes@.len(),
                    k0 < ck <= n,
                    n == t.len(),
                    ck - k0 <= max_window_chars + 1,
                    max_window_chars == p_len + levels,
                    p_len == self.spec_pattern_chars().len(),
                    bytes@.subrange(start as int, end as int) == encode_utf8(t.subrange(k0 as int, ck as int)),
                    decode_utf8(encode_utf8(t.subrange(k0 as int, ck as int))) == t.subrange(k0 as int, ck as int),
                    r@.len() == levels + 1,
                decreases rounds - round,
            {
                propagate(&mut r, last_mask, levels);
                let mut d: usize = 0;
                while d <= levels
                    invariant
                        self.wf(),
                        levels <= self.spec_limits().max_edits,
                        levels <= 128,
                        p_len + levels + 1 <= 254,
                        t == text@,
                        bytes@ == encode_utf8(t),
                        start < end <= bytes@.len(),
                        k0 < ck <= n,
                        n == t.len(),
                        ck - k0 <= max_window_chars + 1,
                        max_window_chars == p_len + levels,
                        p_len == self.spec_pattern_chars().len(),
                        bytes@.subrange(start as int, end as int) == encode_utf8(t.subrange(k0 as int, ck as int)),
                        decode_utf8(encode_utf8(t.subrange(k0 as int, ck as int))) == t.subrange(k0 as int, ck as int),
                        0 <= d <= levels + 1,
                        r@.len() == levels + 1,
                    decreases levels + 1 - d,
                {
                    if (r[d] & self.accept_mask) == 0 {
                        proof {
                            assert(t.subrange(k0 as int, ck as int).len() == ck - k0);
                        }
                        if let Some(m) = self.anchored_window(bytes, start, end, d, true, ranks) {
                            return Some(m);
                        }
                    }
                    d = d + 1;
                }
                round = round + 1;
            }
        }
        None
    }

    /// The search anchored at byte `start`: at or past the end of the text,
    /// the all-deletions match when the budget allows it and its score reaches
    /// the threshold; otherwise the ASCII search for an ASCII pattern of at
    /// most 64 characters with a budget of at most four, the search over all
    /// levels of the budget for other such patterns and budgets, and the
    /// search over levels up to the budget capped at the pattern length,
    /// skipping levels whose best score misses the threshold, for the rest.
    pub fn find_at_byte_position(&self, text: &str, start: usize, ranks: &ScoreRanks) -> (r: Option<EditMatch>)
        requires
            self.wf(),
        ensures
            start < encode_utf8(text@).len() && !(ascii_chars(self.spec_pattern_chars()) && self.spec_limits().max_edits <= 4
                && self.spec_pattern_chars().len() <= 64) && !char_start(text@, start as int) ==> r is None,
            r matches Some(m) ==> self.anchored(encode_utf8(text@), *ranks, start as int, m),
            start < encode_utf8(text@).len() && ascii_chars(self.spec_pattern_chars()) && self.spec_limits().max_edits <= 4
                && self.spec_pattern_chars().len() <= 64 && anchored_exact(
                self.spec_pattern_chars(),
                self.spec_case_insensitive(),
                encode_utf8(text@),
                start as int,
            ) && rank_in(
                ranks.finished@,
                0,
                excess(self.window_match(encode_utf8(text@), start as int, start + self.spec_pattern_chars().len())),
            ) >= ranks.threshold ==> r is Some,
            start < encode_utf8(text@).len() && !(ascii_chars(self.spec_pattern_chars()) && self.spec_limits().max_edits <= 4
                && self.spec_pattern_chars().len() <= 64) ==> forall|k: int|
                0 <= k <= text@.len() && byte_offset(text@, k) == start && #[trigger] self.general_goal(
                    text@,
                    *ranks,
                    k,
                    self.skips_levels(),
                ) ==> r is Some,
            start >= encode_utf8(text@).len() ==> r == (if self.spec_pattern_chars().len() <= self.spec_limits().max_edits
                && bitap_rank(ranks.finished@, all_deletions(start, self.spec_pattern_chars().len())) >= ranks.threshold {
                Some(all_deletions(start, self.spec_pattern_chars().len()))
            } else {
                None
            }),
    {
        let bytes = text.as_bytes();
        let p_len = self.pattern_len;
        let max_edits = self.limits.max_edits as usize;
        if start >= bytes.len() {
            if p_len <= max_edits {
                let m = EditMatch {
                    start,
                    end: start,
                    insertions: 0,
                    deletions: p_len as u8,
                    substitutions: 0,
                    swaps: 0,
                };
                if bitap_score(&ranks.finished, &m) >= ranks.threshold {
                    return Some(m);
                }
            }
            return None;
        }
        if self.is_ascii && max_edits <= 4 && p_len <= 64 {
            return self.at_position_ascii(text, start, ranks);
        }
        if !starts_a_char(text, start) {
            return None;
        }
        if max_edits <= 4 && p_len <= 64 {
            self.at_position_general(text, start, ranks, max_edits, false)
        } else {
            let eff = if max_edits < p_len {
                max_edits
            } else {
                p_len
            };
            self.at_position_general(text, start, ranks, eff, true)
        }
    }
}

/// Whether a character of `text` starts at byte `b`.
fn starts_a_char(text: &str, b: usize) -> (r: bool)
    ensures
        r == char_start(text@, b as int),
{
    let (chars, offs) = decode_text(text);
    let mut k: usize = 0;
    while k < chars.len()
        invariant
            chars@ == text@,
            offsets_of(text@, offs@),
            k <= chars@.len(),
            forall|j: int| 0 <= j < k ==> byte_offset(text@, j) != b,
        decreases chars@.len() - k,
    {
        if offs[k] == b {
            return true;
        }
        k = k + 1;
    }
    false
}

impl BitapMatcher {
    /// The first match starting at one of the byte positions in
    /// `candidates` inside the text: the candidates are tried in increasing
    /// order with the anchored search ([`BitapMatcher::find_at_byte_position`]),
    /// and the first one with a match gives it.  An empty text or an empty set
    /// of candidates gives none.
    pub fn find_first_with_candidates(&self, text: &str, ranks: &ScoreRanks, candidates: &Vec<usize>) -> (r: Option<
        EditMatch,
    >)
        requires
            self.wf(),
        ensures
            r matches Some(m) ==> candidates@.contains(m.start) && m.start < encode_utf8(text@).len() && self.anchored(
                encode_utf8(text@),
                *ranks,
                m.start as int,
                m,
            ),
            text@.len() == 0 || candidates@.len() == 0 ==> r is None,
            forall|c: usize|
                #![trigger candidates@.contains(c)]
                candidates@.contains(c) && self.anchored_goal(encode_utf8(text@), *ranks, c as int) ==> r is Some,
    {
        let n = text.as_bytes().len();
        proof {
            if text@.len() == 0 {
                assert(encode_utf8(text@) =~= Seq::<u8>::empty());
            }
        }
        if n == 0 || candidates.len() == 0 {
            return None;
        }
        let sorted = sort_positions(candidates);
        let mut i: usize = 0;
        while i < sorted.len()
            invariant
                self.wf(),
                n == encode_utf8(text@).len(),
                i <= sorted@.len(),
                forall|x: usize| #[trigger] sorted@.contains(x) <==> candidates@.contains(x),
                forall|j: int| 0 <= j < i ==> !self.anchored_goal(encode_utf8(text@), *ranks, sorted@[j] as int),
            decreases sorted@.len() - i,
        {
            let c = sorted[i];
            if c < n {
                let found = self.find_at_byte_position(text, c, ranks);
                if let Some(m) = found {
                    proof {
                        assert(sorted@.contains(c));
                    }
                    return Some(m);
                }
            }
            i = i + 1;
        }
        proof {
            assert forall|c: usize| candidates@.contains(c) implies !self.anchored_goal(encode_utf8(text@), *ranks, c as int) by {
                assert(sorted@.contains(c));
                let j = choose|j: int| 0 <= j < sorted@.len() && #[trigger] sorted@[j] == c;
            }
        }
        None
    }
}

impl BitapMatcher {
    /// The pattern occurs exactly at byte `c` of `b` as the anchored ASCII
    /// search reads it, and an exact match's score reaches the threshold.
    pub open spec fn anchored_goal(&self, b: Seq<u8>, ranks: ScoreRanks, c: int) -> bool {
        &&& c < b.len()
        &&& ascii_chars(self.spec_pattern_chars())
        &&& self.spec_limits().max_edits <= 4
        &&& self.spec_pattern_chars().len() <= 64
        &&& anchored_exact(self.spec_pattern_chars(), self.spec_case_insensitive(), b, c)
        &&& rank_in(ranks.finished@, 0, excess(self.window_match(b, c, c + self.spec_pattern_chars().len())))
            >= ranks.threshold
    }

    /// The anchored search at each of `positions` in turn: the index of the
    /// first position with a match, and that match.
    pub fn find_at_positions_parallel(&self, text: &str, positions: &Vec<usize>, ranks: &ScoreRanks) -> (r: Option<
        (usize, EditMatch),
    >)
        requires
            self.wf(),
        ensures
            r matches Some((i, m)) ==> i < positions@.len() && m.start == positions@[i as int] && self.anchored(
                encode_utf8(text@),
                *ranks,
                m.start as int,
                m,
            ),
            forall|j: int|
                0 <= j < positions@.len() && self.anchored_goal(encode_utf8(text@), *ranks, positions@[j] as int) ==> (
                r matches Some((i, m)) && i <= j),
    {
        let mut i: usize = 0;
        while i < positions.len()
            invariant
                self.wf(),
                i <= positions@.len(),
                forall|j: int| 0 <= j < i ==> !self.anchored_goal(encode_utf8(text@), *ranks, positions@[j] as int),
            decreases positions@.len() - i,
        {
            if let Some(m) = self.find_at_byte_position(text, positions[i], ranks) {
                return Some((i, m));
            }
            i = i + 1;
        }
        None
    }
}

/// The positions of `v` in increasing order.
fn sort_positions(v: &Vec<usize>) -> (r: Vec<usize>)
    ensures
        forall|x: usize| #[trigger] r@.contains(x) <==> v@.contains(x),
        forall|a: int, b: int| 0 <= a < b < r@.len() ==> r@[a] <= r@[b],
{
    let mut out: Vec<usize> = Vec::new();
    let mut i: usize = 0;
    while i < v.len()
        invariant
            i <= v@.len(),
            forall|x: usize| #[trigger] out@.contains(x) <==> v@.take(i as int).contains(x),
            forall|a: int, b: int| 0 <= a < b < out@.len() ==> out@[a] <= out@[b],
        decreases v@.len() - i,
    {
        let x = v[i];
        let mut p: usize = out.len();
        while p > 0 && out[p - 1] > x
            invariant
                p <= out@.len(),
                forall|a: int| p <= a < out@.len() ==> out@[a] > x,
            decreases p,
        {
            p = p - 1;
        }
        let ghost before = out@;
        out.insert(p, x);
        proof {
            assert(out@ == before.insert(p as int, x));
            assert(v@.take(i + 1) =~= v@.take(i as int).push(x));
            let t0 = v@.take(i as int);
            let t1 = v@.take(i + 1);
            let o1 = out@;
            assert forall|y: usize| #[trigger] o1.contains(y) <==> t1.contains(y) by {
                if o1.contains(y) {
                    let a = choose|a: int| 0 <= a < o1.len() && #[trigger] o1[a] == y;
                    if a < p {
                        assert(before[a] == y);
                        assert(before.contains(y));
                        let q = choose|q: int| 0 <= q < t0.len() && #[trigger] t0[q] == y;
                        assert(t1[q] == y);
                    } else if a == p {
                        assert(t1[i as int] == y);
                    } else {
                        assert(before[a - 1] == y);
                        assert(before.contains(y));
                        let q = choose|q: int| 0 <= q < t0.len() && #[trigger] t0[q] == y;
                        assert(t1[q] == y);
                    }
                }
                if t1.contains(y) {
                    let q = choose|q: int| 0 <= q < t1.len() && #[trigger] t1[q] == y;
                    if q == i {
                        assert(o1[p as int] == y);
                    } else {
                        assert(t0[q] == y);
                        assert(t0.contains(y));
                        assert(before.contains(y));
                        let a = choose|a: int| 0 <= a < before.len() && #[trigger] before[a] == y;
                        if a < p {
                            assert(o1[a] == y);
                        } else {
                            assert(o1[a + 1] == y);
                        }
                    }
                }
            }
            assert forall|a: int, b: int| 0 <= a < b < out@.len() implies out@[a] <= out@[b] by {
                if b < p {
                } else if b == p {
                    if p > 0 && a < p {
                        assert(before[p - 1] <= x);
                        assert(before[a] <= before[p - 1] || a == p - 1);
                    }
                } else if a < p {
                    assert(out@[b] == before[b - 1]);
                } else if a == p {
                    assert(out@[b] == before[b - 1]);
                } else {
                    assert(out@[a] == before[a - 1]);
                    assert(out@[b] == before[b - 1]);
                }
            }
        }
        i = i + 1;
    }
    proof {
        assert(v@.take(v@.len() as int) =~= v@);
    }
    out
}

/// The optimal string alignment cost of the first `j + 1` characters of `pp`
/// against characters `s..n` of `tt`.
spec fn suffix_cost(pp: Seq<char>, tt: Seq<char>, s: int, j: u128, n: int) -> int {
    osa(pp, tt.subrange(s, tt.len() as int), j + 1, n - s)
}

/// Automaton row `x` after `n` text characters at level `k`: bit `j` is
/// clear whenever the first `j + 1` pattern characters align with some
/// suffix of the text read so far within `k` edits.
spec fn row_ok(x: u128, pp: Seq<char>, tt: Seq<char>, m: int, k: int, n: int) -> bool {
    forall|j: u128, s: int| (j as int) < m && 0 <= s <= n && #[trigger] suffix_cost(pp, tt, s, j, n) <= k ==> cleared(x, j)
}

/// `x` has bit `j` clear wherever pattern character `j` equals text character `n`.
spec fn mask_for(x: u128, pp: Seq<char>, tt: Seq<char>, m: int, n: int) -> bool {
    forall|j: u128| (j as int) < m && pp[j as int] == tt[n] ==> #[trigger] cleared(x, j)
}

proof fn bv_shl(x: u128, j: u128)
    by (bit_vector)
    requires
        j < 128,
        j == 0 || (x >> ((j - 1) as u128)) & 1 == 0,
    ensures
        ((x << 1u128) >> j) & 1 == 0,
{
}

proof fn bv_or(a: u128, b: u128, j: u128)
    by (bit_vector)
    requires
        j < 128,
        (a >> j) & 1 == 0,
        (b >> j) & 1 == 0,
    ensures
        ((a | b) >> j) & 1 == 0,
{
}

proof fn bv_and(a: u128, b: u128, j: u128)
    by (bit_vector)
    requires
        j < 128,
        (a >> j) & 1 == 0 || (b >> j) & 1 == 0,
    ensures
        ((a & b) >> j) & 1 == 0,
{
}

proof fn bv_shr(x: u128, j: u128)
    by (bit_vector)
    requires
        j < 127,
        (x >> ((j + 1) as u128)) & 1 == 0,
    ensures
        ((x >> 1u128) >> j) & 1 == 0,
{
}

/// Clear bits survive a conjunction of rows.
proof fn lemma_and4(a: u128, b: u128, c: u128, d: u128, j: u128)
    requires
        j < 128,
        cleared(a, j) || cleared(b, j) || cleared(c, j) || cleared(d, j),
    ensures
        cleared(((a & b) & c) & d, j),
{
    if cleared(a, j) || cleared(b, j) {
        bv_and(a, b, j);
    }
    if cleared(a & b, j) || cleared(c, j) {
        bv_and(a & b, c, j);
    }
    bv_and((a & b) & c, d, j);
}

/// A window the quick check may reject is over budget: when the pattern is
/// further than `budget` from the whole of an ASCII window, so is the exact
/// edit breakdown of that window.
pub proof fn lemma_rejected_window_over_budget(p: Seq<char>, ci: bool, w: Seq<u8>, budget: int)
    requires
        ascii_bytes(w),
        osa(fold_ascii(p, ci), fold_ascii(ascii_text(w), ci).subrange(0, w.len() as int), p.len() as int, w.len() as int)
            > budget,
    ensures
        window_breakdown(p, ci, w).0 + window_breakdown(p, ci, w).1 + window_breakdown(p, ci, w).2 + window_breakdown(
            p,
            ci,
            w,
        ).3 > budget,
{
    lemma_ascii_bytes_decode(w);
    assert(decode_utf8(w) == ascii_text(w));
    let ft = fold_ascii(ascii_text(w), ci);
    assert(ft.subrange(0, w.len() as int) =~= ft);
    lemma_window_breakdown_exact(p, ci, w);
}

/// Equal characters after ASCII case folding are a hit of the byte masks.
proof fn lemma_fold_hits(c: char, b: u8, ci: bool)
    requires
        is_ascii_char(c),
        b < 128,
        (if ci {
            ascii_lower(c)
        } else {
            c
        }) == (if ci {
            ascii_lower(b as char)
        } else {
            b as char
        }),
    ensures
        byte_hits(c, b as int, ci),
{
}

/// Level 0 of the automaton: exact matching of a pattern prefix against a
/// text suffix.
proof fn lemma_level0_step(pp: Seq<char>, tt: Seq<char>, m: int, n: int, old0: u128, cm: u128, new0: u128)
    requires
        pp.len() == m,
        1 <= m <= 64,
        0 <= n < tt.len(),
        row_ok(old0, pp, tt, m, 0, n),
        mask_for(cm, pp, tt, m, n),
        new0 == (old0 << 1u128) | cm,
    ensures
        row_ok(new0, pp, tt, m, 0, n + 1),
{
    assert forall|j: u128, s: int| (j as int) < m && 0 <= s <= n + 1 && #[trigger] suffix_cost(pp, tt, s, j, n + 1)
        <= 0 implies cleared(new0, j) by {
        let t = tt.subrange(s, tt.len() as int);
        let i = j + 1;
        let l = n + 1 - s;
        lemma_osa_lower(t, t, 0, 0);
        if l >= 1 {
            lemma_osa_lower(pp, t, i - 1, l);
            lemma_osa_lower(pp, t, i, l - 1);
            lemma_osa_lower(pp, t, i - 1, l - 1);
            if swappable(pp, t, i, l) {
                lemma_osa_lower(pp, t, i - 2, l - 2);
            }
            assert(t[l - 1] == tt[n]);
            assert(pp[j as int] == tt[n]);
            assert(cleared(cm, j));
            if j == 0 {
                bv_shl(old0, j);
            } else {
                let jm = (j - 1) as u128;
                assert(suffix_cost(pp, tt, s, jm, n) <= 0);
                assert(cleared(old0, jm));
                bv_shl(old0, j);
            }
            bv_or(old0 << 1u128, cm, j);
        }
    }
}

/// Level `k >= 1` of the automaton: a prefix of the pattern aligns with a
/// suffix of the text within `k` edits only through a match, substitution,
/// insertion, deletion or transposition from a row the automaton already
/// holds.
#[verifier::rlimit(50)]
proof fn lemma_level_step(
    pp: Seq<char>,
    tt: Seq<char>,
    m: int,
    k: int,
    n: int,
    old_k: u128,
    old_km1: u128,
    new_km1: u128,
    oo_km1: u128,
    cm: u128,
    pm: Option<u128>,
    newk: u128,
)
    requires
        pp.len() == m,
        1 <= m <= 64,
        1 <= k,
        0 <= n < tt.len(),
        row_ok(old_k, pp, tt, m, k, n),
        row_ok(old_km1, pp, tt, m, k - 1, n),
        row_ok(new_km1, pp, tt, m, k - 1, n + 1),
        mask_for(cm, pp, tt, m, n),
        n == 0 ==> pm is None,
        n >= 1 ==> (pm matches Some(x) && mask_for(x, pp, tt, m, n - 1) && row_ok(oo_km1, pp, tt, m, k - 1, n - 1)),
        newk == match pm {
            Some(x) => (((((old_k << 1u128) | cm) & old_km1) & (new_km1 << 1u128)) & (old_km1 << 1u128)) & (((oo_km1
                << 1u128) | (cm | (x >> 1u128))) << 1u128),
            None => ((((old_k << 1u128) | cm) & old_km1) & (new_km1 << 1u128)) & (old_km1 << 1u128),
        },
    ensures
        row_ok(newk, pp, tt, m, k, n + 1),
{
    let base = ((((old_k << 1u128) | cm) & old_km1) & (new_km1 << 1u128)) & (old_km1 << 1u128);
    assert forall|j: u128, s: int| (j as int) < m && 0 <= s <= n + 1 && #[trigger] suffix_cost(pp, tt, s, j, n + 1)
        <= k implies cleared(newk, j) by {
        let t = tt.subrange(s, tt.len() as int);
        let i = j + 1;
        let l = n + 1 - s;
        let mt = (old_k << 1u128) | cm;
        let dl = new_km1 << 1u128;
        let sb = old_km1 << 1u128;
        if l == 0 {
            if j > 0 {
                let jm = (j - 1) as u128;
                assert(suffix_cost(pp, tt, s, jm, n + 1) == j);
            }
            bv_shl(new_km1, j);
            lemma_and4(mt, old_km1, dl, sb, j);
            lemma_with_trans(base, oo_km1, cm, pm, j);
        } else {
            assert(t[l - 1] == tt[n]);
            let c = osa(pp, t, i, l);
            let del = osa(pp, t, i - 1, l) + 1;
            let ins = osa(pp, t, i, l - 1) + 1;
            let cost: int = if pp[i - 1] == t[l - 1] { 0 } else { 1 };
            let dg = osa(pp, t, i - 1, l - 1) + cost;
            if del <= k {
                if j > 0 {
                    let jm = (j - 1) as u128;
                    assert(suffix_cost(pp, tt, s, jm, n + 1) == del - 1);
                }
                bv_shl(new_km1, j);
                lemma_and4(mt, old_km1, dl, sb, j);
                lemma_with_trans(base, oo_km1, cm, pm, j);
            } else if ins <= k {
                assert(suffix_cost(pp, tt, s, j, n) == ins - 1);
                lemma_and4(mt, old_km1, dl, sb, j);
                lemma_with_trans(base, oo_km1, cm, pm, j);
            } else if dg <= k {
                if j > 0 {
                    let jm = (j - 1) as u128;
                    assert(suffix_cost(pp, tt, s, jm, n) == dg - cost);
                }
                if cost == 0 {
                    assert(pp[j as int] == tt[n]);
                    assert(cleared(cm, j));
                    bv_shl(old_k, j);
                    bv_or(old_k << 1u128, cm, j);
                } else {
                    if j == 0 {
                        lemma_osa_lower(pp, t, 0, l - 1);
                    }
                    bv_shl(old_km1, j);
                }
                lemma_and4(mt, old_km1, dl, sb, j);
                lemma_with_trans(base, oo_km1, cm, pm, j);
            } else {
                assert(swappable(pp, t, i, l) && osa(pp, t, i - 2, l - 2) + 1 <= k);
                let x = pm->0;
                assert(n >= 1);
                assert(t[l - 2] == tt[n - 1]);
                assert(pp[j as int] == tt[n - 1]);
                let jm = (j - 1) as u128;
                assert(pp[jm as int] == tt[n]);
                assert(cleared(x, j));
                assert(cleared(cm, jm));
                bv_shr(x, jm);
                if jm > 0 {
                    let jmm = (jm - 1) as u128;
                    assert(suffix_cost(pp, tt, s, jmm, n - 1) == osa(pp, t, i - 2, l - 2));
                    assert(cleared(oo_km1, jmm));
                }
                bv_shl(oo_km1, jm);
                bv_or(cm, x >> 1u128, jm);
                bv_or(oo_km1 << 1u128, cm | (x >> 1u128), jm);
                bv_shl((oo_km1 << 1u128) | (cm | (x >> 1u128)), j);
                bv_and(base, ((oo_km1 << 1u128) | (cm | (x >> 1u128))) << 1u128, j);
            }
        }
    }
}

/// A clear bit of the row before the transposition step stays clear after it.
proof fn lemma_with_trans(base: u128, oo: u128, cm: u128, pm: Option<u128>, j: u128)
    requires
        j < 128,
        cleared(base, j),
    ensures
        cleared(
            match pm {
                Some(x) => base & (((oo << 1u128) | (cm | (x >> 1u128))) << 1u128),
                None => base,
            },
            j,
        ),
{
    if let Some(x) = pm {
        bv_and(base, ((oo << 1u128) | (cm | (x >> 1u128))) << 1u128, j);
    }
}

} // verus!
