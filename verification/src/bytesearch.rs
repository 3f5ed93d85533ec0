//! Byte and substring search primitives provided by the `memchr` crate.
use vstd::prelude::*;

verus! {

/// `r` is the first index of `h` whose byte satisfies `p`, or `None` when no byte does.
pub open spec fn is_first_where(h: Seq<u8>, p: spec_fn(u8) -> bool, r: Option<usize>) -> bool {
    match r {
        Some(i) => i < h.len() && p(h[i as int]) && forall|j: int| 0 <= j < i ==> !p(#[trigger] h[j]),
        None => forall|j: int| 0 <= j < h.len() ==> !p(#[trigger] h[j]),
    }
}

/// `r` is the last index of `h` whose byte satisfies `p`, or `None` when no byte does.
pub open spec fn is_last_where(h: Seq<u8>, p: spec_fn(u8) -> bool, r: Option<usize>) -> bool {
    match r {
        Some(i) => i < h.len() && p(h[i as int]) && forall|j: int| i < j < h.len() ==> !p(#[trigger] h[j]),
        None => forall|j: int| 0 <= j < h.len() ==> !p(#[trigger] h[j]),
    }
}

/// `needle` occurs in `h` at index `i`.
pub open spec fn occurs_at(h: Seq<u8>, needle: Seq<u8>, i: int) -> bool {
    0 <= i && i + needle.len() <= h.len() && h.subrange(i, i + needle.len()) == needle
}

/// Calls `memchr::memchr`: the index of the first byte of `haystack`
/// equal to `needle`, or `None` if there is none.
#[verifier::external_body]
pub(crate) fn find_byte(needle: u8, haystack: &[u8]) -> (r: Option<usize>)
    ensures
        is_first_where(haystack@, |b: u8| b == needle, r),
{
    memchr::memchr(needle, haystack)
}

/// Calls `memchr::memchr2`: the index of the first byte of `haystack`
/// equal to either needle, or `None` if there is none.
#[verifier::external_body]
pub(crate) fn find_byte2(n1: u8, n2: u8, haystack: &[u8]) -> (r: Option<usize>)
    ensures
        is_first_where(haystack@, |b: u8| b == n1 || b == n2, r),
{
    memchr::memchr2(n1, n2, haystack)
}

/// Calls `memchr::memchr3`: the index of the first byte of `haystack`
/// equal to any of the three needles, or `None` if there is none.
#[verifier::external_body]
pub(crate) fn find_byte3(n1: u8, n2: u8, n3: u8, haystack: &[u8]) -> (r: Option<usize>)
    ensures
        is_first_where(haystack@, |b: u8| b == n1 || b == n2 || b == n3, r),
{
    memchr::memchr3(n1, n2, n3, haystack)
}

/// Calls `memchr::memrchr`: the index of the last byte of `haystack`
/// equal to `needle`, or `None` if there is none.
#[verifier::external_body]
pub(crate) fn rfind_byte(needle: u8, haystack: &[u8]) -> (r: Option<usize>)
    ensures
        is_last_where(haystack@, |b: u8| b == needle, r),
{
    memchr::memrchr(needle, haystack)
}

/// Calls `memchr::memmem::find`: the first index at which `needle` occurs
/// in `haystack` (0 for an empty needle), or `None` if it does not occur.
#[verifier::external_body]
pub(crate) fn find_substring(haystack: &[u8], needle: &[u8]) -> (r: Option<usize>)
    ensures
        match r {
            Some(i) => occurs_at(haystack@, needle@, i as int) && forall|j: int|
                0 <= j < i ==> !#[trigger] occurs_at(haystack@, needle@, j),
            None => forall|j: int| 0 <= j ==> !#[trigger] occurs_at(haystack@, needle@, j),
        },
{
    memchr::memmem::find(haystack, needle)
}

/// Calls `memchr::memmem::rfind`: the last index at which `needle` occurs
/// in `haystack`, or `None` if it does not occur.
#[verifier::external_body]
pub(crate) fn rfind_substring(haystack: &[u8], needle: &[u8]) -> (r: Option<usize>)
    ensures
        match r {
            Some(i) => occurs_at(haystack@, needle@, i as int) && forall|j: int|
                i < j ==> !#[trigger] occurs_at(haystack@, needle@, j),
            None => forall|j: int| 0 <= j ==> !#[trigger] occurs_at(haystack@, needle@, j),
        },
{
    memchr::memmem::rfind(haystack, needle)
}

} // verus!
