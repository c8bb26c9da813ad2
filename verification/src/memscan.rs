//! Searching byte strings, through the `memchr` crate.

use vstd::prelude::*;

verus! {

/// `needle` occurs in `h` starting at `i`.
pub open spec fn occurs_at(h: Seq<u8>, needle: Seq<u8>, i: int) -> bool {
    0 <= i && i + needle.len() <= h.len() && h.subrange(i, i + needle.len()) == needle
}

/// Start of the first occurrence of `needle` in `h` at or after `i`.
pub open spec fn find_from(h: Seq<u8>, needle: Seq<u8>, i: int) -> Option<int>
    decreases h.len() + 1 - i,
{
    if i < 0 || i + needle.len() > h.len() {
        None
    } else if occurs_at(h, needle, i) {
        Some(i)
    } else {
        find_from(h, needle, i + 1)
    }
}

/// Index of the first `b` in `h` at or after `i`.
pub open spec fn find_byte_from(h: Seq<u8>, b: u8, i: int) -> Option<int>
    decreases h.len() - i,
{
    if i < 0 || i >= h.len() {
        None
    } else if h[i] == b {
        Some(i)
    } else {
        find_byte_from(h, b, i + 1)
    }
}

/// Position of the first occurrence of `needle` in `haystack` (the result
/// of `memchr::memmem::find`).
#[verifier::external_body]
pub(crate) fn find(haystack: &[u8], needle: &[u8]) -> (r: Option<usize>)
    ensures
        match r {
            Some(i) => find_from(haystack@, needle@, 0) == Some(i as int),
            None => find_from(haystack@, needle@, 0) is None,
        },
{
    memchr::memmem::find(haystack, needle)
}

/// Position of the first `needle` byte in `haystack` (the result of
/// `memchr::memchr`).
#[verifier::external_body]
pub(crate) fn find_byte(needle: u8, haystack: &[u8]) -> (r: Option<usize>)
    ensures
        match r {
            Some(i) => find_byte_from(haystack@, needle, 0) == Some(i as int),
            None => find_byte_from(haystack@, needle, 0) is None,
        },
{
    memchr::memchr(needle, haystack)
}

/// What `find_from` finds is the first occurrence at or after `i`.
pub proof fn lemma_find_from(h: Seq<u8>, needle: Seq<u8>, i: int)
    requires
        i >= 0,
    ensures
        match find_from(h, needle, i) {
            Some(e) => i <= e && occurs_at(h, needle, e) && forall|j: int|
                i <= j < e ==> !#[trigger] occurs_at(h, needle, j),
            None => forall|j: int| i <= j ==> !#[trigger] occurs_at(h, needle, j),
        },
    decreases h.len() + 1 - i,
{
    if i + needle.len() <= h.len() && !occurs_at(h, needle, i) {
        lemma_find_from(h, needle, i + 1);
    }
}

/// What `find_byte_from` finds is the first `b` at or after `i`.
pub proof fn lemma_find_byte_from(h: Seq<u8>, b: u8, i: int)
    requires
        i >= 0,
    ensures
        match find_byte_from(h, b, i) {
            Some(e) => i <= e < h.len() && h[e] == b && forall|j: int| i <= j < e ==> h[j] != b,
            None => forall|j: int| i <= j < h.len() ==> h[j] != b,
        },
    decreases h.len() - i,
{
    if i < h.len() && h[i] != b {
        lemma_find_byte_from(h, b, i + 1);
    }
}

/// Searching a suffix is searching the whole from the suffix's start.
pub proof fn lemma_find_from_skip(h: Seq<u8>, needle: Seq<u8>, s: int, i: int)
    requires
        0 <= s <= h.len(),
        i >= 0,
    ensures
        find_from(h.skip(s), needle, i) == (match find_from(h, needle, s + i) {
            Some(e) => Some(e - s),
            None => None::<int>,
        }),
    decreases h.len() + 1 - s - i,
{
    let t = h.skip(s);
    if i + needle.len() <= t.len() {
        assert(t.subrange(i, i + needle.len()) =~= h.subrange(s + i, s + i + needle.len()));
        if !occurs_at(t, needle, i) {
            lemma_find_from_skip(h, needle, s, i + 1);
        }
    }
}

/// A first occurrence that lies within `h` stays the first occurrence when
/// bytes are appended.
pub proof fn lemma_find_from_extend(h: Seq<u8>, extra: Seq<u8>, needle: Seq<u8>, i: int)
    requires
        i >= 0,
        find_from(h, needle, i) is Some,
    ensures
        find_from(h + extra, needle, i) == find_from(h, needle, i),
    decreases h.len() + 1 - i,
{
    let g = h + extra;
    assert(i + needle.len() <= h.len());
    assert(g.subrange(i, i + needle.len()) =~= h.subrange(i, i + needle.len()));
    if !occurs_at(h, needle, i) {
        lemma_find_from_extend(h, extra, needle, i + 1);
    }
}

} // verus!
