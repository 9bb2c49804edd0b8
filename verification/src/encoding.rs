//! Facts that carry statements about the bytes of a string slice over to its
//! characters. A string slice is viewed as a `Seq<char>`, while the exec code
//! of this crate walks its UTF-8 bytes; the lemmas here connect the two.

use vstd::prelude::*;
use vstd::utf8::*;

verus! {

/// The encoding of a concatenation is the concatenation of the encodings.
pub proof fn lemma_encode_concat(a: Seq<char>, b: Seq<char>)
    ensures
        encode_utf8(a + b) == encode_utf8(a) + encode_utf8(b),
    decreases a.len(),
{
    if a.len() == 0 {
        assert(a + b =~= b);
        assert(encode_utf8(a) + encode_utf8(b) =~= encode_utf8(b));
    } else {
        lemma_encode_concat(a.drop_first(), b);
        assert((a + b).drop_first() =~= a.drop_first() + b);
        assert(encode_utf8(a + b) =~= encode_utf8(a) + encode_utf8(b));
    }
}

/// Two texts with the same encoding are the same text.
pub proof fn lemma_encode_injective(a: Seq<char>, b: Seq<char>)
    requires
        encode_utf8(a) == encode_utf8(b),
    ensures
        a == b,
{
    encode_utf8_decode_utf8(a);
    encode_utf8_decode_utf8(b);
}

/// An ASCII character is encoded as the one byte of its code.
pub proof fn lemma_encode_ascii(c: char)
    requires
        c as u32 <= 0x7f,
    ensures
        encode_utf8(seq![c]) == seq![c as u8],
{
    let code = c as u32;
    assert(leading_byte_width_1(code) == code as u8) by (bit_vector)
        requires
            code <= 0x7f,
    ;
    reveal_with_fuel(encode_utf8, 2);
    assert(seq![c].drop_first() =~= Seq::<char>::empty());
    assert(encode_utf8(seq![c]) =~= seq![c as u8]);
}

/// An ASCII character of a text has its code among the bytes of the text.
pub proof fn lemma_ascii_char_has_byte(text: Seq<char>, i: int)
    requires
        0 <= i < text.len(),
        text[i] as u32 <= 0x7f,
    ensures
        encode_utf8(text).contains(text[i] as u8),
{
    let before = text.take(i);
    let after = text.skip(i + 1);
    let c = text[i];
    assert(text =~= before + seq![c] + after);
    lemma_encode_concat(before, seq![c]);
    lemma_encode_concat(before + seq![c], after);
    lemma_encode_ascii(c);
    let at = encode_utf8(before).len() as int;
    assert(encode_utf8(text)[at] == c as u8);
}

/// A valid byte string that begins with an ASCII byte decodes to the
/// character of that code, followed by the decoding of the other bytes.
pub proof fn lemma_decode_ascii_first(bytes: Seq<u8>)
    requires
        valid_utf8(bytes),
        bytes.len() > 0,
        bytes[0] <= 0x7f,
    ensures
        decode_utf8(bytes).len() > 0,
        decode_utf8(bytes)[0] as u32 == bytes[0] as u32,
        decode_utf8(bytes).drop_first() == decode_utf8(bytes.subrange(1, bytes.len() as int)),
{
    let first = bytes[0];
    assert(codepoint_width_1(first) == first as u32) by (bit_vector)
        requires
            first <= 0x7f,
    ;
    assert(decode_utf8(bytes).drop_first() =~= decode_utf8(pop_first_scalar(bytes)));
}

/// A text that is not empty has an encoding that is not empty.
pub proof fn lemma_encode_nonempty(text: Seq<char>)
    requires
        text.len() > 0,
    ensures
        encode_utf8(text).len() > 0,
{
}

/// The first byte of a valid, non-empty byte string is no continuation byte.
pub proof fn lemma_first_byte_leads(bytes: Seq<u8>)
    requires
        valid_utf8(bytes),
        bytes.len() > 0,
    ensures
        !is_continuation_byte(bytes[0]),
{
}

/// A valid byte string that begins another valid byte string ends at one of
/// its char boundaries.
pub proof fn lemma_prefix_ends_at_boundary(bytes: Seq<u8>, prefix: Seq<u8>)
    requires
        valid_utf8(bytes),
        valid_utf8(prefix),
        prefix.len() <= bytes.len(),
        bytes.subrange(0, prefix.len() as int) == prefix,
    ensures
        is_char_boundary(bytes, prefix.len() as int),
    decreases prefix.len(),
{
    if prefix.len() > 0 {
        assert forall|j: int| 0 <= j < prefix.len() implies bytes[j] == prefix[j] by {
            assert(bytes.subrange(0, prefix.len() as int)[j] == bytes[j]);
        }
        let width = length_of_first_scalar(prefix);
        assert(length_of_first_scalar(bytes) == width);
        let bytes_rest = pop_first_scalar(bytes);
        let prefix_rest = pop_first_scalar(prefix);
        assert(bytes_rest.subrange(0, prefix_rest.len() as int) =~= prefix_rest);
        lemma_prefix_ends_at_boundary(bytes_rest, prefix_rest);
    }
}

} // verus!
