//! Contiguous sub-sequences, and a search for one in a string slice.

use vstd::prelude::*;
use vstd::utf8::*;
use crate::encoding::{
    lemma_encode_concat,
    lemma_encode_injective,
    lemma_encode_nonempty,
    lemma_first_byte_leads,
    lemma_prefix_ends_at_boundary,
};

verus! {

/// `needle` stands in `haystack` at offset `at`.
pub open spec fn occurs_at<T>(haystack: Seq<T>, needle: Seq<T>, at: int) -> bool {
    &&& 0 <= at
    &&& at + needle.len() <= haystack.len()
    &&& haystack.subrange(at, at + needle.len()) == needle
}

/// `needle` stands somewhere in `haystack` as a contiguous run.
pub open spec fn has_substring<T>(haystack: Seq<T>, needle: Seq<T>) -> bool {
    exists|at: int| occurs_at(haystack, needle, at)
}

/// An occurrence among the characters is an occurrence among the bytes, at
/// the offset where the encoding of what precedes it ends.
proof fn lemma_occurrence_encodes(haystack: Seq<char>, needle: Seq<char>, at: int)
    requires
        occurs_at(haystack, needle, at),
    ensures
        occurs_at(
            encode_utf8(haystack),
            encode_utf8(needle),
            encode_utf8(haystack.take(at)).len() as int,
        ),
{
    let before = haystack.take(at);
    let after = haystack.skip(at + needle.len());
    assert(haystack =~= before + needle + after);
    lemma_encode_concat(before, needle);
    lemma_encode_concat(before + needle, after);
    let start = encode_utf8(before).len() as int;
    assert(encode_utf8(haystack).subrange(start, start + encode_utf8(needle).len())
        =~= encode_utf8(needle));
}

/// An occurrence of the bytes of `needle` among the bytes of `haystack`
/// begins and ends at char boundaries, so it is an occurrence among the
/// characters.
proof fn lemma_occurrence_decodes(haystack: Seq<char>, needle: Seq<char>, at: int)
    requires
        occurs_at(encode_utf8(haystack), encode_utf8(needle), at),
    ensures
        has_substring(haystack, needle),
{
    let bytes = encode_utf8(haystack);
    let wanted = encode_utf8(needle);
    encode_utf8_valid_utf8(haystack);
    encode_utf8_valid_utf8(needle);
    encode_utf8_decode_utf8(haystack);
    encode_utf8_decode_utf8(needle);
    if needle.len() == 0 {
        assert(haystack.subrange(0, 0) =~= needle);
        assert(occurs_at(haystack, needle, 0));
    } else {
        lemma_encode_nonempty(needle);
        lemma_first_byte_leads(wanted);
        assert(bytes[at] == wanted[0]) by {
            assert(bytes.subrange(at, at + wanted.len())[0] == bytes[at]);
        }
        is_char_boundary_iff_not_is_continuation_byte(bytes, at);
        valid_utf8_split(bytes, at);
        decode_utf8_split(bytes, at);
        let head = bytes.subrange(0, at);
        let tail = bytes.subrange(at, bytes.len() as int);
        assert(tail.subrange(0, wanted.len() as int) =~= wanted);
        lemma_prefix_ends_at_boundary(tail, wanted);
        valid_utf8_split(tail, wanted.len() as int);
        decode_utf8_split(tail, wanted.len() as int);
        let before = decode_utf8(head);
        let after = decode_utf8(tail.subrange(wanted.len() as int, tail.len() as int));
        let start = before.len() as int;
        assert(haystack == before + (needle + after));
        assert(haystack.subrange(start, start + needle.len()) =~= needle);
        assert(occurs_at(haystack, needle, start));
    }
}

/// A text holds `needle` exactly when its UTF-8 bytes hold the bytes of
/// `needle`.
pub proof fn lemma_substring_of_encoding(haystack: Seq<char>, needle: Seq<char>)
    ensures
        has_substring(encode_utf8(haystack), encode_utf8(needle)) == has_substring(
            haystack,
            needle,
        ),
{
    if has_substring(haystack, needle) {
        let at = choose|at: int| occurs_at(haystack, needle, at);
        lemma_occurrence_encodes(haystack, needle, at);
    }
    if has_substring(encode_utf8(haystack), encode_utf8(needle)) {
        let at = choose|at: int| occurs_at(encode_utf8(haystack), encode_utf8(needle), at);
        lemma_occurrence_decodes(haystack, needle, at);
    }
}

/// Whether `needle` stands in `haystack` at offset `at`, element by element.
fn matches_at(haystack: &[u8], needle: &[u8], at: usize) -> (same: bool)
    requires
        at + needle@.len() <= haystack@.len(),
    ensures
        same == occurs_at(haystack@, needle@, at as int),
{
    proof {
        vstd::slice::axiom_spec_len(haystack);
    }
    let mut i: usize = 0;
    while i < needle.len()
        invariant
            i <= needle@.len(),
            at + needle@.len() <= haystack@.len() <= usize::MAX,
            forall|j: int| 0 <= j < i ==> haystack@[at + j] == needle@[j],
        decreases needle@.len() - i,
    {
        if haystack[at + i] != needle[i] {
            assert(haystack@.subrange(at as int, at + needle@.len())[i as int] != needle@[i as int]);
            return false;
        }
        i += 1;
    }
    assert(haystack@.subrange(at as int, at + needle@.len()) =~= needle@);
    true
}

/// Whether `needle` stands somewhere in `haystack`, by trying each offset
/// in turn.
fn find_bytes(haystack: &[u8], needle: &[u8]) -> (found: bool)
    ensures
        found == has_substring(haystack@, needle@),
{
    if needle.len() > haystack.len() {
        return false;
    }
    let last: usize = haystack.len() - needle.len();
    let mut at: usize = 0;
    loop
        invariant
            last + needle@.len() == haystack@.len(),
            at <= last,
            forall|k: int| 0 <= k < at ==> !occurs_at(haystack@, needle@, k),
        decreases last - at,
    {
        if matches_at(haystack, needle, at) {
            return true;
        }
        if at == last {
            return false;
        }
        at += 1;
    }
}

/// Whether `haystack` holds `needle` as a contiguous run of characters.
/// The empty `needle` is held by every `haystack`.
pub fn contains(haystack: &str, needle: &str) -> (found: bool)
    ensures
        found == has_substring(haystack@, needle@),
{
    proof {
        lemma_substring_of_encoding(haystack@, needle@);
    }
    find_bytes(haystack.as_bytes(), needle.as_bytes())
}

/// Whether `left` and `right` hold the same characters.
pub fn same_text(left: &str, right: &str) -> (same: bool)
    ensures
        same == (left@ == right@),
{
    let left_bytes = left.as_bytes();
    let right_bytes = right.as_bytes();
    if left_bytes.len() != right_bytes.len() {
        return false;
    }
    let same = matches_at(left_bytes, right_bytes, 0);
    proof {
        assert(left_bytes@.subrange(0, right_bytes@.len() as int) =~= left_bytes@);
        if same {
            lemma_encode_injective(left@, right@);
        }
    }
    same
}

} // verus!
