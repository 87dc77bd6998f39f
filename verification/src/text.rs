//! Byte ranges of a text.

use vstd::prelude::*;
use vstd::string::StringSliceAdditionalSpecFns;
use vstd::utf8::{
    decode_utf8, decode_utf8_encode_utf8, encode_utf8, encode_utf8_decode_utf8,
    encode_utf8_valid_utf8, is_char_boundary, is_char_boundary_iff_not_is_continuation_byte,
    is_char_boundary_start_end_of_seq, valid_utf8, valid_utf8_split,
};

verus! {

/// How many bytes a text takes.
pub open spec fn byte_len(text: Seq<char>) -> nat {
    encode_utf8(text).len()
}

/// Whether no character of `text` straddles the byte `at`.
pub open spec fn on_char(text: Seq<char>, at: int) -> bool {
    is_char_boundary(encode_utf8(text), at)
}

/// The characters in the bytes `start..end` of `text`.
pub open spec fn text_slice(text: Seq<char>, start: int, end: int) -> Seq<char> {
    decode_utf8(encode_utf8(text).subrange(start, end))
}

/// The characters in the bytes `start..end` of `text`; none where those bytes
/// split a character.
pub open spec fn chars_in(text: Seq<char>, start: int, end: int) -> Seq<char> {
    if start <= end && on_char(text, start) && on_char(text, end) {
        text_slice(text, start, end)
    } else {
        Seq::empty()
    }
}

/// How many bytes `text` takes.
pub fn text_len(text: &str) -> (r: usize)
    ensures
        r == byte_len(text@),
{
    let bytes = text.as_bytes();
    bytes.len()
}

/// Both ends of a text fall between its characters.
pub proof fn lemma_on_char_ends(text: Seq<char>)
    ensures
        on_char(text, 0),
        on_char(text, byte_len(text) as int),
{
    encode_utf8_valid_utf8(text);
    is_char_boundary_start_end_of_seq(encode_utf8(text));
}

/// A character of one byte stands alone: its byte and the one after it are
/// where characters start.
pub proof fn lemma_on_char_ascii(text: Seq<char>, at: int)
    requires
        0 <= at < byte_len(text),
        encode_utf8(text)[at] < 0x80,
    ensures
        on_char(text, at),
        on_char(text, at + 1),
{
    let bytes = encode_utf8(text);
    encode_utf8_valid_utf8(text);
    is_char_boundary_iff_not_is_continuation_byte(bytes, at);
    lemma_boundary_after_ascii(bytes, at);
}

proof fn lemma_boundary_after_ascii(bytes: Seq<u8>, at: int)
    requires
        valid_utf8(bytes),
        0 <= at < bytes.len(),
        bytes[at] < 0x80,
    ensures
        is_char_boundary(bytes, at + 1),
{
    is_char_boundary_iff_not_is_continuation_byte(bytes, at);
    valid_utf8_split(bytes, at);
    let rest = bytes.subrange(at, bytes.len() as int);
    assert(rest[0] == bytes[at]);
    if at + 1 == bytes.len() {
        is_char_boundary_start_end_of_seq(bytes);
    } else {
        is_char_boundary_iff_not_is_continuation_byte(bytes, at + 1);
        is_char_boundary_iff_not_is_continuation_byte(rest, 1);
        assert(is_char_boundary(rest, 1)) by {
            reveal_with_fuel(is_char_boundary, 2);
        }
        assert(rest[1] == bytes[at + 1]);
    }
}

/// The bytes between two places where characters start are those of the
/// characters between them.
pub proof fn lemma_slice_bytes(text: Seq<char>, start: int, end: int)
    requires
        start <= end,
        on_char(text, start),
        on_char(text, end),
    ensures
        0 <= start <= end <= byte_len(text),
        is_char_boundary(encode_utf8(text).subrange(0, end), start),
        encode_utf8(text_slice(text, start, end)) == encode_utf8(text).subrange(start, end),
        byte_len(text_slice(text, start, end)) == end - start,
{
    let bytes = encode_utf8(text);
    encode_utf8_valid_utf8(text);
    valid_utf8_split(bytes, end);
    let cut = bytes.subrange(0, end);
    if start < end {
        is_char_boundary_iff_not_is_continuation_byte(bytes, start);
        is_char_boundary_iff_not_is_continuation_byte(cut, start);
        assert(cut[start] == bytes[start]);
    } else {
        is_char_boundary_start_end_of_seq(cut);
    }
    valid_utf8_split(cut, start);
    assert(cut.subrange(start, end) =~= bytes.subrange(start, end));
    decode_utf8_encode_utf8(bytes.subrange(start, end));
}

/// Two slices that meet make the slice from the start of the first to the end
/// of the second.
pub proof fn lemma_slice_append(text: Seq<char>, start: int, middle: int, end: int)
    requires
        start <= middle <= end,
        on_char(text, start),
        on_char(text, middle),
        on_char(text, end),
    ensures
        text_slice(text, start, middle) + text_slice(text, middle, end) == text_slice(
            text,
            start,
            end,
        ),
{
    let bytes = encode_utf8(text);
    let (head, tail) = (text_slice(text, start, middle), text_slice(text, middle, end));
    lemma_slice_bytes(text, start, middle);
    lemma_slice_bytes(text, middle, end);
    lemma_encode_append(head, tail);
    assert(bytes.subrange(start, middle) + bytes.subrange(middle, end) =~= bytes.subrange(
        start,
        end,
    ));
    encode_utf8_decode_utf8(head + tail);
}

/// A text followed by another ends where a character does.
pub proof fn lemma_on_char_append(a: Seq<char>, b: Seq<char>)
    ensures
        on_char(a + b, byte_len(a) as int),
{
    lemma_encode_append(a, b);
    encode_utf8_valid_utf8(a + b);
    encode_utf8_valid_utf8(b);
    let (bytes, rest) = (encode_utf8(a + b), encode_utf8(b));
    let at = byte_len(a) as int;
    if rest.len() == 0 {
        is_char_boundary_start_end_of_seq(bytes);
    } else {
        is_char_boundary_start_end_of_seq(rest);
        is_char_boundary_iff_not_is_continuation_byte(rest, 0);
        is_char_boundary_iff_not_is_continuation_byte(bytes, at);
        assert(bytes[at] == rest[0]);
    }
}

/// The bytes `start..end` of `text`, as a text of its own.
pub fn slice_text<'a>(text: &'a str, start: usize, end: usize) -> (r: &'a str)
    requires
        start <= end,
        on_char(text@, start as int),
        on_char(text@, end as int),
    ensures
        r@ == text_slice(text@, start as int, end as int),
        r.spec_bytes() == text.spec_bytes().subrange(start as int, end as int),
        byte_len(r@) == end - start,
{
    let ghost bytes = text.spec_bytes();
    proof {
        lemma_slice_bytes(text@, start as int, end as int);
    }
    let (head, _rest) = text.split_at(end);
    let (_before, slice) = head.split_at(start);
    proof {
        assert(slice.spec_bytes() =~= bytes.subrange(start as int, end as int));
        encode_utf8_decode_utf8(slice@);
    }
    slice
}

/// The characters in the bytes `start..end` of `text`, as a text of its own;
/// an empty one where those bytes split a character.
pub fn text_in(text: &str, start: usize, end: usize) -> (r: String)
    ensures
        r@ == chars_in(text@, start as int, end as int),
{
    if start <= end && text.is_char_boundary(start) && text.is_char_boundary(end) {
        slice_text(text, start, end).to_owned()
    } else {
        proof {
            reveal_strlit("");
            assert(""@ =~= Seq::empty());
        }
        "".to_owned()
    }
}

/// Encoding runs over a text character by character.
pub proof fn lemma_encode_append(a: Seq<char>, b: Seq<char>)
    ensures
        encode_utf8(a + b) == encode_utf8(a) + encode_utf8(b),
    decreases a.len(),
{
    if a.len() == 0 {
        assert(a + b =~= b);
        assert(encode_utf8(a) =~= Seq::empty());
    } else {
        lemma_encode_append(a.drop_first(), b);
        assert((a + b).drop_first() =~= a.drop_first() + b);
        assert(encode_utf8(a + b) =~= encode_utf8(a) + encode_utf8(b));
    }
}

} // verus!
