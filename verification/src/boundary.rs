//! Character boundaries in UTF-8 text, and slicing a string at them.

use vstd::prelude::*;
use vstd::string::*;
use vstd::utf8::*;

verus! {

/// A one-byte character has a character boundary on both of its sides.
pub proof fn lemma_ascii_boundaries(bytes: Seq<u8>, index: int)
    requires
        valid_utf8(bytes),
        0 <= index < bytes.len(),
        bytes[index] <= 0x7f,
    ensures
        is_char_boundary(bytes, index),
        is_char_boundary(bytes, index + 1),
    decreases bytes.len(),
{
    is_char_boundary_iff_not_is_continuation_byte(bytes, index);
    reveal_with_fuel(is_char_boundary, 2);
    if index != 0 {
        let width = length_of_first_scalar(bytes);
        let rest = pop_first_scalar(bytes);
        assert(index >= width);
        assert(rest[index - width] == bytes[index]);
        lemma_ascii_boundaries(rest, index - width);
    }
}

/// A boundary of the whole text that lies inside a prefix cut at a boundary
/// is a boundary of that prefix.
pub proof fn lemma_boundary_in_prefix(bytes: Seq<u8>, index: int, end: int)
    requires
        valid_utf8(bytes),
        0 <= index <= end <= bytes.len(),
        is_char_boundary(bytes, index),
        is_char_boundary(bytes, end),
    ensures
        valid_utf8(bytes.subrange(0, end)),
        is_char_boundary(bytes.subrange(0, end), index),
{
    let prefix = bytes.subrange(0, end);
    valid_utf8_split(bytes, end);
    if index == end {
        is_char_boundary_start_end_of_seq(prefix);
    } else {
        is_char_boundary_iff_not_is_continuation_byte(bytes, index);
        is_char_boundary_iff_not_is_continuation_byte(prefix, index);
    }
}

/// Bit-level facts on the bytes that encode one scalar value.
proof fn lemma_scalar_byte_ranges(scalar: u32)
    by (bit_vector)
    ensures
        scalar <= 0x7F ==> (scalar & 0x7F) as u8 == scalar,
        (0xC0 | ((scalar >> 6) & 0x1F) as u8) >= 0x80,
        (0xE0 | ((scalar >> 12) & 0x0F) as u8) >= 0x80,
        (0xF0 | ((scalar >> 18) & 0x7) as u8) >= 0x80,
        (0x80 | (scalar & 0x3F) as u8) >= 0x80,
        (0x80 | ((scalar >> 6) & 0x3F) as u8) >= 0x80,
        (0x80 | ((scalar >> 12) & 0x3F) as u8) >= 0x80,
{
}

/// A byte below 0x80 in the encoding of a text is a character of that text:
/// where no character has the code `byte`, no byte of the encoding equals it.
pub proof fn lemma_ascii_byte_absent(chars: Seq<char>, byte: u8)
    requires
        byte <= 0x7f,
        forall|i: int| 0 <= i < chars.len() ==> chars[i] as u32 != byte as u32,
    ensures
        forall|j: int| 0 <= j < encode_utf8(chars).len() ==> encode_utf8(chars)[j] != byte,
    decreases chars.len(),
{
    if chars.len() > 0 {
        let head = encode_scalar(chars[0] as u32);
        let tail = encode_utf8(chars.drop_first());
        lemma_scalar_byte_ranges(chars[0] as u32);
        char_is_scalar(chars[0]);
        assert forall|i: int| 0 <= i < chars.drop_first().len() implies chars.drop_first()[i] as u32
            != byte as u32 by {
            assert(chars.drop_first()[i] == chars[i + 1]);
        }
        lemma_ascii_byte_absent(chars.drop_first(), byte);
        assert forall|j: int| 0 <= j < encode_utf8(chars).len() implies encode_utf8(chars)[j]
            != byte by {
            if j >= head.len() {
                assert(encode_utf8(chars)[j] == tail[j - head.len()]);
            } else {
                assert(encode_utf8(chars)[j] == head[j]);
            }
        }
    }
}

/// The encoding of two texts in a row is their encodings in a row.
pub proof fn lemma_encode_concat(front: Seq<char>, back: Seq<char>)
    ensures
        encode_utf8(front + back) == encode_utf8(front) + encode_utf8(back),
    decreases front.len(),
{
    if front.len() == 0 {
        assert(front + back =~= back);
        assert(encode_utf8(front) + encode_utf8(back) =~= encode_utf8(back));
    } else {
        lemma_encode_concat(front.drop_first(), back);
        assert((front + back).drop_first() =~= front.drop_first() + back);
        assert(encode_utf8(front + back) =~= encode_utf8(front) + encode_utf8(back));
    }
}

/// Two texts with the same encoding are the same text.
pub proof fn lemma_same_bytes_same_text(left: Seq<char>, right: Seq<char>)
    requires
        encode_utf8(left) == encode_utf8(right),
    ensures
        left == right,
{
    encode_utf8_decode_utf8(left);
    encode_utf8_decode_utf8(right);
}

/// The part of `text` between two byte offsets that are character boundaries.
pub fn slice_between<'a>(text: &'a str, start: usize, end: usize) -> (part: &'a str)
    requires
        start <= end <= text.spec_bytes().len(),
        is_char_boundary(text.spec_bytes(), start as int),
        is_char_boundary(text.spec_bytes(), end as int),
    ensures
        part.spec_bytes() == text.spec_bytes().subrange(start as int, end as int),
        part@ == decode_utf8(text.spec_bytes().subrange(start as int, end as int)),
{
    proof {
        encode_utf8_valid_utf8(text@);
        lemma_boundary_in_prefix(text.spec_bytes(), start as int, end as int);
    }
    let (head, _) = text.split_at(end);
    let (_, part) = head.split_at(start);
    proof {
        assert(part.spec_bytes() =~= text.spec_bytes().subrange(start as int, end as int));
        encode_utf8_decode_utf8(part@);
    }
    part
}

} // verus!
