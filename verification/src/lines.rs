//! The lines of a text.
//!
//! A line ends at a line feed. The line feed is not part of the line, and
//! neither is one carriage return that stands directly before it. What
//! follows the last line feed is a line of its own unless it is empty, and
//! keeps a carriage return at its end.

use vstd::prelude::*;
use vstd::string::*;
use vstd::utf8::*;
use crate::encoding::{
    lemma_ascii_char_has_byte,
    lemma_decode_ascii_first,
    lemma_encode_ascii,
    lemma_encode_concat,
    lemma_encode_injective,
    lemma_encode_nonempty,
};

verus! {

/// The byte that ends a line.
pub const LINE_FEED: u8 = 0x0a;

/// The byte that may stand before a line feed without belonging to the line.
pub const CARRIAGE_RETURN: u8 = 0x0d;

/// The number of characters before the first line feed of `text`, which is
/// the length of `text` when it holds none.
pub open spec fn newline_offset(text: Seq<char>) -> nat
    decreases text.len(),
{
    if text.len() == 0 || text[0] == '\n' {
        0
    } else {
        1 + newline_offset(text.drop_first())
    }
}

/// `line` without the carriage return at its end, if it has one.
pub open spec fn strip_carriage_return(line: Seq<char>) -> Seq<char> {
    if line.len() > 0 && line.last() == '\r' {
        line.drop_last()
    } else {
        line
    }
}

/// The first line of a text that is not empty.
pub open spec fn first_line(text: Seq<char>) -> Seq<char> {
    let end = newline_offset(text) as int;
    if end < text.len() {
        strip_carriage_return(text.take(end))
    } else {
        text
    }
}

/// What follows the first line of `text` and its terminator.
pub open spec fn after_first_line(text: Seq<char>) -> Seq<char> {
    let end = newline_offset(text) as int;
    if end < text.len() {
        text.skip(end + 1)
    } else {
        Seq::empty()
    }
}

/// The lines of `text`, in the order in which they stand in it.
pub open spec fn lines_of(text: Seq<char>) -> Seq<Seq<char>>
    decreases text.len(),
{
    if text.len() == 0 {
        Seq::empty()
    } else {
        seq![first_line(text)] + lines_of(after_first_line(text))
    }
}

/// `newline_offset` is the one position that has no line feed before it and
/// either a line feed at it or the end of the text.
pub proof fn lemma_newline_offset(text: Seq<char>, end: int)
    requires
        0 <= end <= text.len(),
        forall|j: int| 0 <= j < end ==> text[j] != '\n',
        end < text.len() ==> text[end] == '\n',
    ensures
        newline_offset(text) == end,
    decreases text.len(),
{
    if end > 0 {
        let rest = text.drop_first();
        assert forall|j: int| 0 <= j < end - 1 implies rest[j] != '\n' by {
            assert(rest[j] == text[j + 1]);
        }
        lemma_newline_offset(rest, end - 1);
    }
}

/// `newline_offset` lies within the text, has no line feed before it, and
/// has a line feed at it unless it is the end of the text.
pub proof fn lemma_newline_offset_is_first(text: Seq<char>)
    ensures
        newline_offset(text) <= text.len(),
        forall|j: int| 0 <= j < newline_offset(text) ==> text[j] != '\n',
        newline_offset(text) < text.len() ==> text[newline_offset(text) as int] == '\n',
    decreases text.len(),
{
    if !(text.len() == 0 || text[0] == '\n') {
        let rest = text.drop_first();
        lemma_newline_offset_is_first(rest);
        assert forall|j: int| 0 <= j < newline_offset(text) implies text[j] != '\n' by {
            if j > 0 {
                assert(text[j] == rest[j - 1]);
            }
        }
    }
}

/// No line holds a line feed.
pub proof fn lemma_lines_hold_no_line_feed(text: Seq<char>)
    ensures
        forall|i: int, j: int|
            0 <= i < lines_of(text).len() && 0 <= j < lines_of(text)[i].len() ==> lines_of(
                text,
            )[i][j] != '\n',
    decreases text.len(),
{
    if text.len() > 0 {
        lemma_newline_offset_is_first(text);
        lemma_lines_hold_no_line_feed(after_first_line(text));
        let first = first_line(text);
        let others = lines_of(after_first_line(text));
        assert forall|i: int, j: int|
            0 <= i < lines_of(text).len() && 0 <= j < lines_of(text)[i].len() implies lines_of(
            text,
        )[i][j] != '\n' by {
            if i == 0 {
                assert(lines_of(text)[0] == first);
                assert(first[j] == text[j]);
            } else {
                assert(lines_of(text)[i] == others[i - 1]);
            }
        }
    }
}

/// A text whose bytes hold no line feed holds no line feed character.
proof fn lemma_no_line_feed(text: Seq<char>)
    requires
        forall|j: int| 0 <= j < encode_utf8(text).len() ==> encode_utf8(text)[j] != LINE_FEED,
    ensures
        forall|i: int| 0 <= i < text.len() ==> text[i] != '\n',
{
    assert forall|i: int| 0 <= i < text.len() implies text[i] != '\n' by {
        if text[i] == '\n' {
            lemma_ascii_char_has_byte(text, i);
        }
    }
}

/// A text ends with a carriage return exactly when its bytes end with the
/// byte of one, and the bytes before that byte then encode the text before
/// that character.
proof fn lemma_trailing_carriage_return(line: Seq<char>)
    ensures
        ({
            let bytes = encode_utf8(line);
            let stripped = bytes.len() > 0 && bytes.last() == CARRIAGE_RETURN;
            &&& stripped == (line.len() > 0 && line.last() == '\r')
            &&& stripped ==> is_char_boundary(bytes, bytes.len() - 1) && encode_utf8(
                line.drop_last(),
            ) == bytes.drop_last()
        }),
{
    let bytes = encode_utf8(line);
    encode_utf8_valid_utf8(line);
    encode_utf8_decode_utf8(line);
    if line.len() > 0 && line.last() == '\r' {
        assert(line =~= line.drop_last() + seq!['\r']);
        lemma_encode_concat(line.drop_last(), seq!['\r']);
        lemma_encode_ascii('\r');
        assert(bytes.drop_last() =~= encode_utf8(line.drop_last()));
    }
    if bytes.len() > 0 && bytes.last() == CARRIAGE_RETURN {
        let at = bytes.len() - 1;
        is_char_boundary_iff_not_is_continuation_byte(bytes, at);
        valid_utf8_split(bytes, at);
        decode_utf8_split(bytes, at);
        let last_bytes = bytes.subrange(at, bytes.len() as int);
        lemma_decode_ascii_first(last_bytes);
        assert(last_bytes.subrange(1, last_bytes.len() as int) =~= Seq::<u8>::empty());
        assert(decode_utf8(last_bytes).len() == 1);
        assert(line.last() == decode_utf8(last_bytes)[0]);
    }
}

/// Where a split of `text` at a char boundary of its bytes leaves the two
/// parts `head` and `tail`, `text` is `head` followed by `tail`.
proof fn lemma_parts_of_split(text: Seq<char>, head: Seq<char>, tail: Seq<char>, at: int)
    requires
        is_char_boundary(encode_utf8(text), at),
        0 <= at <= encode_utf8(text).len(),
        encode_utf8(head) == encode_utf8(text).subrange(0, at),
        encode_utf8(tail) == encode_utf8(text).subrange(at, encode_utf8(text).len() as int),
    ensures
        text == head + tail,
{
    let bytes = encode_utf8(text);
    encode_utf8_valid_utf8(text);
    decode_utf8_split(bytes, at);
    encode_utf8_decode_utf8(text);
    encode_utf8_decode_utf8(head);
    encode_utf8_decode_utf8(tail);
}

/// Splits the first line off `text`: the line without its terminator, and
/// what follows the terminator. An empty `text` has no first line.
pub fn split_first_line<'a>(text: &'a str) -> (parts: Option<(&'a str, &'a str)>)
    ensures
        match parts {
            None => text@.len() == 0,
            Some((line, rest)) => {
                &&& text@.len() > 0
                &&& line@ == first_line(text@)
                &&& rest@ == after_first_line(text@)
            },
        },
{
    let bytes = text.as_bytes();
    let len: usize = bytes.len();
    proof {
        encode_utf8_valid_utf8(text@);
        is_char_boundary_start_end_of_seq(bytes@);
        if text@.len() > 0 {
            lemma_encode_nonempty(text@);
        }
    }
    if len == 0 {
        return None;
    }
    let mut end: usize = 0;
    while end < len && bytes[end] != LINE_FEED
        invariant
            end <= len == bytes@.len(),
            forall|j: int| 0 <= j < end ==> bytes@[j] != LINE_FEED,
        decreases len - end,
    {
        end += 1;
    }
    if end == len {
        let (line, rest) = text.split_at(len);
        proof {
            assert(bytes@.subrange(0, len as int) =~= bytes@);
            lemma_encode_injective(line@, text@);
            if rest@.len() > 0 {
                lemma_encode_nonempty(rest@);
            }
            lemma_no_line_feed(text@);
            lemma_newline_offset(text@, text@.len() as int);
        }
        return Some((line, rest));
    }
    proof {
        is_char_boundary_iff_not_is_continuation_byte(bytes@, end as int);
    }
    let (head, tail) = text.split_at(end);
    proof {
        valid_utf8_split(bytes@, end as int);
        lemma_parts_of_split(text@, head@, tail@, end as int);
        lemma_no_line_feed(head@);
        encode_utf8_decode_utf8(tail@);
        lemma_decode_ascii_first(tail.spec_bytes());
        assert(tail@[0] == '\n');
        lemma_newline_offset(text@, head@.len() as int);
        assert(text@.take(head@.len() as int) =~= head@);
        assert(text@.skip(head@.len() as int + 1) =~= tail@.drop_first());
        reveal_with_fuel(is_char_boundary, 2);
        assert(is_char_boundary(tail.spec_bytes(), 1));
    }
    let (_, rest) = tail.split_at(1);
    proof {
        encode_utf8_decode_utf8(rest@);
        lemma_trailing_carriage_return(head@);
    }
    if end > 0 && bytes[end - 1] == CARRIAGE_RETURN {
        let (line, _) = head.split_at(end - 1);
        proof {
            assert(head.spec_bytes().drop_last() =~= head.spec_bytes().subrange(0, end - 1));
            lemma_encode_injective(line@, head@.drop_last());
        }
        Some((line, rest))
    } else {
        Some((head, rest))
    }
}

} // verus!
