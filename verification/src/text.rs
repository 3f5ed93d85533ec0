//! Correspondence between a string's characters and its UTF-8 byte offsets.
use vstd::prelude::*;
use vstd::utf8::*;
use vstd::string::StringSliceAdditionalSpecFns;
use crate::nfa::{ascii_lower, is_ascii_char};

verus! {

/// Number of bytes in the UTF-8 encoding of `c`.
pub open spec fn char_width(c: char) -> nat {
    encode_scalar(c as u32).len()
}

/// Byte offset of the `k`-th character of `s`.
pub open spec fn byte_offset(s: Seq<char>, k: int) -> int {
    encode_utf8(s.take(k)).len() as int
}

/// `b` is the byte offset of some character position of `s` (or of its end).
pub open spec fn is_boundary(s: Seq<char>, b: int) -> bool {
    exists|k: int| 0 <= k <= s.len() && #[trigger] byte_offset(s, k) == b
}

/// The byte offsets of every character position of `s`, end included.
pub open spec fn offsets_of(s: Seq<char>, offs: Seq<usize>) -> bool {
    &&& offs.len() == s.len() + 1
    &&& forall|k: int| 0 <= k <= s.len() ==> #[trigger] offs[k] == byte_offset(s, k)
}

pub proof fn lemma_encode_utf8_append(a: Seq<char>, b: Seq<char>)
    ensures
        encode_utf8(a + b) == encode_utf8(a) + encode_utf8(b),
    decreases a.len(),
{
    if a.len() == 0 {
        assert(a + b =~= b);
        assert(encode_utf8(a) =~= Seq::<u8>::empty());
        assert(encode_utf8(a) + encode_utf8(b) =~= encode_utf8(b));
    } else {
        assert((a + b).drop_first() =~= a.drop_first() + b);
        lemma_encode_utf8_append(a.drop_first(), b);
        assert(encode_utf8(a + b) == encode_scalar((a + b)[0] as u32) + encode_utf8((a + b).drop_first()));
        assert(encode_utf8(a + b) =~= encode_utf8(a) + encode_utf8(b));
    }
}

pub proof fn lemma_offset_step(s: Seq<char>, k: int)
    requires
        0 <= k < s.len(),
    ensures
        byte_offset(s, k + 1) == byte_offset(s, k) + char_width(s[k]),
{
    assert(s.take(k + 1) =~= s.take(k) + seq![s[k]]);
    lemma_encode_utf8_append(s.take(k), seq![s[k]]);
    let one = seq![s[k]];
    assert(one.drop_first() =~= Seq::<char>::empty());
    assert(encode_utf8(one.drop_first()) =~= Seq::<u8>::empty());
    assert(encode_utf8(one) == encode_scalar(one[0] as u32) + encode_utf8(one.drop_first()));
    assert(encode_utf8(one) =~= encode_scalar(s[k] as u32));
}

pub proof fn lemma_offset_bounds(s: Seq<char>, k: int)
    requires
        0 <= k <= s.len(),
    ensures
        byte_offset(s, k) <= encode_utf8(s).len(),
        byte_offset(s, 0) == 0,
        byte_offset(s, s.len() as int) == encode_utf8(s).len(),
{
    assert(s.take(0) =~= Seq::<char>::empty());
    assert(s.take(s.len() as int) =~= s);
    assert(s =~= s.take(k) + s.skip(k));
    lemma_encode_utf8_append(s.take(k), s.skip(k));
}

/// Offsets grow strictly with the character index.
pub proof fn lemma_offset_strict(s: Seq<char>, i: int, j: int)
    requires
        0 <= i < j <= s.len(),
    ensures
        byte_offset(s, i) < byte_offset(s, j),
    decreases j - i,
{
    lemma_offset_step(s, j - 1);
    assert(char_width(s[j - 1]) > 0);
    if i < j - 1 {
        lemma_offset_strict(s, i, j - 1);
    }
}

/// The bytes between the offsets of characters `a` and `b` are the encoding
/// of exactly those characters.
pub proof fn lemma_window_bytes(s: Seq<char>, a: int, b: int)
    requires
        0 <= a <= b <= s.len(),
    ensures
        0 <= byte_offset(s, a) <= byte_offset(s, b) <= encode_utf8(s).len(),
        encode_utf8(s).subrange(byte_offset(s, a), byte_offset(s, b)) == encode_utf8(s.subrange(a, b)),
        valid_utf8(encode_utf8(s.subrange(a, b))),
        decode_utf8(encode_utf8(s.subrange(a, b))) == s.subrange(a, b),
{
    let x = s.take(a);
    let y = s.subrange(a, b);
    let z = s.skip(b);
    assert(s.take(b) =~= x + y);
    assert(s =~= s.take(b) + z);
    lemma_encode_utf8_append(x, y);
    lemma_encode_utf8_append(s.take(b), z);
    assert(encode_utf8(s).subrange(byte_offset(s, a), byte_offset(s, b)) =~= encode_utf8(y));
    encode_utf8_valid_utf8(y);
    encode_utf8_decode_utf8(y);
}

/// In an all-ASCII text every character is one byte: character `k` starts at byte `k`.
pub proof fn lemma_ascii_offsets(s: Seq<char>, k: int)
    requires
        0 <= k <= s.len(),
        forall|i: int| 0 <= i < s.len() ==> (#[trigger] s[i] as u32) < 128,
    ensures
        byte_offset(s, k) == k,
    decreases k,
{
    if k == 0 {
        assert(s.take(0) =~= Seq::<char>::empty());
        assert(encode_utf8(Seq::<char>::empty()) =~= Seq::<u8>::empty());
    } else {
        lemma_ascii_offsets(s, k - 1);
        lemma_offset_step(s, k - 1);
        let c = s[k - 1];
        assert((c as u32) < 128);
        char_is_scalar(c);
    }
}

/// A UTF-8 encoding has at least one byte per character.
pub proof fn lemma_encode_len(s: Seq<char>)
    ensures
        encode_utf8(s).len() >= s.len(),
    decreases s.len(),
{
    if s.len() > 0 {
        lemma_offset_step(s, 0);
        lemma_offset_bounds(s, 1);
        lemma_offset_bounds(s, s.len() as int);
        assert(s =~= s.take(1) + s.skip(1));
        lemma_encode_utf8_append(s.take(1), s.skip(1));
        lemma_encode_len(s.skip(1));
        char_is_scalar(s[0]);
    }
}

/// Decoding valid bytes gives at most one character per byte.
pub proof fn lemma_decode_len(w: Seq<u8>)
    requires
        valid_utf8(w),
    ensures
        decode_utf8(w).len() <= w.len(),
{
    decode_utf8_encode_utf8(w);
    lemma_encode_len(decode_utf8(w));
}

/// Between two character positions there are at least as many bytes as characters.
pub proof fn lemma_offset_gap(s: Seq<char>, i: int, j: int)
    requires
        0 <= i <= j <= s.len(),
    ensures
        byte_offset(s, j) - byte_offset(s, i) >= j - i,
    decreases j - i,
{
    if j > i {
        lemma_offset_gap(s, i, j - 1);
        lemma_offset_step(s, j - 1);
        char_is_scalar(s[j - 1]);
    }
}

/// Characters `i..j` take at most four bytes each, and exactly one each when
/// they are ASCII.
pub proof fn lemma_offset_gap_upper(s: Seq<char>, i: int, j: int)
    requires
        0 <= i <= j <= s.len(),
    ensures
        byte_offset(s, j) - byte_offset(s, i) <= 4 * (j - i),
        (forall|x: int| i <= x < j ==> (#[trigger] s[x] as u32) < 128) ==> byte_offset(s, j) - byte_offset(s, i) == j - i,
    decreases j - i,
{
    if j > i {
        lemma_offset_gap_upper(s, i, j - 1);
        lemma_offset_step(s, j - 1);
    }
}

/// The byte at the offset of character `k` is the first byte of its encoding.
pub proof fn lemma_byte_at_offset(s: Seq<char>, k: int)
    requires
        0 <= k < s.len(),
    ensures
        byte_offset(s, k) < encode_utf8(s).len(),
        encode_utf8(s)[byte_offset(s, k)] == encode_scalar(s[k] as u32)[0],
{
    let a = s.take(k);
    let b = s.skip(k);
    assert(s =~= a + b);
    lemma_encode_utf8_append(a, b);
    assert(b[0] == s[k]);
    assert(encode_utf8(b) == encode_scalar(b[0] as u32) + encode_utf8(b.drop_first()));
    char_is_scalar(s[k]);
    assert(encode_scalar(s[k] as u32).len() > 0);
    assert(encode_utf8(s)[encode_utf8(a).len() as int] == encode_utf8(b)[0]);
}

/// Only the newline character has a UTF-8 encoding whose first byte is 10.
pub proof fn lemma_newline_byte(c: char)
    ensures
        (encode_scalar(c as u32)[0] == 10) == (c == '\n'),
{
    let v = c as u32;
    char_is_scalar(c);
    if v <= 0x7F {
        assert((v & 0x7F) as u8 == v) by (bit_vector)
            requires
                v <= 0x7F,
        ;
    } else if v <= 0x7FF {
        assert(0xC0 | ((v >> 6) & 0x1F) as u8 != 10) by (bit_vector);
    } else if v <= 0xFFFF {
        assert(0xE0 | ((v >> 12) & 0x0F) as u8 != 10) by (bit_vector);
    } else {
        assert(0xF0 | ((v >> 18) & 0x7) as u8 != 10) by (bit_vector);
    }
}

/// Calls `std::str::from_utf8`, keeping the string on success: it succeeds
/// exactly when the bytes are valid UTF-8, and then the string's bytes are
/// the input bytes.
#[verifier::external_body]
pub fn str_from_utf8(bytes: &[u8]) -> (r: Option<&str>)
    ensures
        r is Some <==> valid_utf8(bytes@),
        r matches Some(s) ==> s.spec_bytes() == bytes@,
{
    std::str::from_utf8(bytes).ok()
}

/// The characters of a byte string that is valid UTF-8.
pub fn decode_utf8_bytes(bytes: &[u8]) -> (r: Option<Vec<char>>)
    ensures
        r is Some <==> valid_utf8(bytes@),
        r matches Some(cs) ==> cs@ == decode_utf8(bytes@),
{
    match str_from_utf8(bytes) {
        None => None,
        Some(s) => {
            proof {
                encode_utf8_decode_utf8(s@);
            }
            Some(decode_text(s).0)
        },
    }
}

/// Bytes below 128 are valid UTF-8 and decode one character per byte.
pub proof fn lemma_ascii_bytes_decode(bytes: Seq<u8>)
    requires
        forall|i: int| 0 <= i < bytes.len() ==> #[trigger] bytes[i] < 128,
    ensures
        valid_utf8(bytes),
        decode_utf8(bytes) == Seq::new(bytes.len(), |i: int| bytes[i] as char),
{
    let cs = Seq::new(bytes.len(), |i: int| bytes[i] as char);
    assert(is_ascii_chars(cs));
    is_ascii_chars_encode_utf8(cs);
    assert(encode_utf8(cs) =~= bytes);
    encode_utf8_valid_utf8(cs);
    encode_utf8_decode_utf8(cs);
}

/// Calls `str::to_lowercase`: the Unicode lowercase form of `s`; an ASCII
/// string is lowercased character by character.
#[verifier::external_body]
pub fn str_to_lowercase(s: &str) -> (r: String)
    ensures
        r@ == spec_str_lowercase(s@),
        is_ascii_chars(s@) ==> r@ == s@.map_values(|c: char| ascii_lower(c)),
{
    s.to_lowercase()
}

/// The Unicode lowercase form of a string.
pub uninterp spec fn spec_str_lowercase(s: Seq<char>) -> Seq<char>;

/// The characters of the Unicode lowercase mapping of `c`.
pub uninterp spec fn spec_char_lowercase(c: char) -> Seq<char>;

pub fn utf8_width(c: char) -> (r: usize)
    ensures
        r == char_width(c),
        1 <= r <= 4,
{
    let v = c as u32;
    proof {
        char_is_scalar(c);
    }
    if v < 0x80 {
        1
    } else if v < 0x800 {
        2
    } else if v < 0x10000 {
        3
    } else {
        4
    }
}

/// The characters of `text` and the byte offset of each character position.
pub fn decode_text(text: &str) -> (r: (Vec<char>, Vec<usize>))
    ensures
        r.0@ == text@,
        offsets_of(text@, r.1@),
        r.1@[text@.len() as int] == encode_utf8(text@).len(),
        encode_utf8(text@).len() <= usize::MAX,
{
    let bytes = text.as_bytes();
    let total = bytes.len();
    let mut chars: Vec<char> = Vec::new();
    let mut offs: Vec<usize> = Vec::new();
    let mut pos: usize = 0;
    offs.push(0);
    proof {
        lemma_offset_bounds(text@, 0);
    }
    for c in it: text.chars()
        invariant
            it.seq() == text@,
            bytes@ == encode_utf8(text@),
            total == bytes@.len(),
            chars@ == text@.take(it.index()),
            offs@.len() == it.index() + 1,
            forall|k: int| 0 <= k <= it.index() ==> #[trigger] offs@[k] == byte_offset(text@, k),
            pos == offs@[it.index() as int],
    {
        let ghost k = it.index();
        let w = utf8_width(c);
        proof {
            lemma_offset_step(text@, k);
            lemma_offset_bounds(text@, k + 1);
        }
        pos = pos + w;
        chars.push(c);
        offs.push(pos);
        assert(chars@ =~= text@.take(k + 1));
    }
    proof {
        lemma_offset_bounds(text@, text@.len() as int);
        assert(chars@ =~= text@);
    }
    (chars, offs)
}

} // verus!
