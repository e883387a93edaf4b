//! How the characters of a text and the bytes of its UTF-8 encoding answer
//! each other: what is found in the bytes is found in the text.
use vstd::prelude::*;
use vstd::utf8::*;
use crate::text::{occurs_at, occurs_in};

verus! {

/// The bytes of one scalar value: between one and four, led by a byte that
/// continues nothing. A value below 0x80 is its own single byte, and every
/// byte of a larger value is 0x80 or more.
proof fn lemma_scalar_bytes(scalar: u32)
    requires
        is_scalar(scalar),
    ensures
        1 <= encode_scalar(scalar).len() <= 4,
        !is_continuation_byte(encode_scalar(scalar)[0]),
        scalar < 0x80 ==> encode_scalar(scalar) == seq![scalar as u8],
        scalar >= 0x80 ==> forall|i: int|
            0 <= i < encode_scalar(scalar).len() ==> #[trigger] encode_scalar(scalar)[i] >= 0x80,
{
    assert(scalar < 0x80 ==> (scalar & 0x7F) as u8 == scalar as u8) by (bit_vector);
    assert((scalar & 0x7F) as u8 <= 0x7F) by (bit_vector);
    assert(0xC0u8 | ((scalar >> 6) & 0x1F) as u8 >= 0xC0) by (bit_vector);
    assert(0xE0u8 | ((scalar >> 12) & 0x0F) as u8 >= 0xE0) by (bit_vector);
    assert(0xF0u8 | ((scalar >> 18) & 0x7) as u8 >= 0xF0) by (bit_vector);
    assert(0x80u8 | (scalar & 0x3F) as u8 >= 0x80) by (bit_vector);
    assert(0x80u8 | ((scalar >> 6) & 0x3F) as u8 >= 0x80) by (bit_vector);
    assert(0x80u8 | ((scalar >> 12) & 0x3F) as u8 >= 0x80) by (bit_vector);
    if scalar < 0x80 {
        assert(encode_scalar(scalar) =~= seq![scalar as u8]);
    }
}

/// A character below 0x80 is the same number as a byte.
proof fn lemma_ascii_casts(c: char)
    ensures
        is_scalar(c as u32),
        (c as u32) < 0x80 ==> ((c as u32) as u8) as char == c,
{
}

/// Encoding goes through concatenation.
pub proof fn lemma_encode_concat(front: Seq<char>, back: Seq<char>)
    ensures
        encode_utf8(front + back) == encode_utf8(front) + encode_utf8(back),
    decreases front.len(),
{
    if front.len() == 0 {
        assert(front + back =~= back);
    } else {
        lemma_encode_concat(front.drop_first(), back);
        assert((front + back).drop_first() =~= front.drop_first() + back);
    }
}

/// No encoding is shorter than its text.
pub proof fn lemma_encode_len(text: Seq<char>)
    ensures
        text.len() <= encode_utf8(text).len(),
    decreases text.len(),
{
    if text.len() > 0 {
        char_is_scalar(text[0]);
        lemma_scalar_bytes(text[0] as u32);
        lemma_encode_len(text.drop_first());
    }
}

/// The first byte of an encoding continues nothing, and it is below 0x80
/// exactly when the first character is; that character is then the byte
/// itself, and the other bytes encode the other characters.
pub proof fn lemma_first_byte(text: Seq<char>)
    requires
        text.len() > 0,
    ensures
        encode_utf8(text).len() > 0,
        !is_continuation_byte(encode_utf8(text)[0]),
        encode_utf8(text)[0] < 0x80 <==> (text[0] as u32) < 0x80,
        (text[0] as u32) < 0x80 ==> text[0] == encode_utf8(text)[0] as char && encode_utf8(
            text,
        ).drop_first() == encode_utf8(text.drop_first()),
{
    lemma_ascii_casts(text[0]);
    lemma_scalar_bytes(text[0] as u32);
    if (text[0] as u32) < 0x80 {
        assert(encode_utf8(text).drop_first() =~= encode_utf8(text.drop_first()));
    }
}

/// The last byte of an encoding is below 0x80 exactly when the last character
/// is; that character is then the byte itself, and the bytes before it encode
/// the characters before it.
pub proof fn lemma_last_byte(text: Seq<char>)
    requires
        text.len() > 0,
    ensures
        encode_utf8(text).len() > 0,
        encode_utf8(text).last() < 0x80 <==> (text.last() as u32) < 0x80,
        (text.last() as u32) < 0x80 ==> text.last() == encode_utf8(text).last() as char
            && encode_utf8(text).drop_last() == encode_utf8(text.drop_last()),
{
    let end = seq![text.last()];
    assert(text =~= text.drop_last() + end);
    lemma_encode_concat(text.drop_last(), end);
    lemma_ascii_casts(text.last());
    lemma_scalar_bytes(text.last() as u32);
    assert(end.drop_first() =~= Seq::<char>::empty());
    assert(encode_utf8(end) =~= encode_scalar(end[0] as u32) + encode_utf8(end.drop_first()));
    assert(encode_utf8(end) =~= encode_scalar(text.last() as u32));
    if (text.last() as u32) < 0x80 {
        assert(encode_utf8(text).drop_last() =~= encode_utf8(text.drop_last()));
    }
}

/// A character below 0x80 shows in the encoding as its own byte.
pub proof fn lemma_ascii_char_is_byte(text: Seq<char>, at: int)
    requires
        0 <= at < text.len(),
        (text[at] as u32) < 0x80,
    ensures
        exists|i: int|
            0 <= i < encode_utf8(text).len() && text[at] == #[trigger] encode_utf8(text)[i] as char,
{
    let front = text.take(at);
    let back = text.skip(at);
    assert(text =~= front + back);
    lemma_encode_concat(front, back);
    lemma_first_byte(back);
    let i = encode_utf8(front).len() as int;
    assert(encode_utf8(text)[i] == encode_utf8(back)[0]);
}

/// Cutting an encoding at a character boundary cuts the text: the two parts
/// of the bytes are the encodings of two texts that make up the whole.
pub proof fn lemma_cut_at_boundary(text: Seq<char>, at: int) -> (parts: (Seq<char>, Seq<char>))
    requires
        is_char_boundary(encode_utf8(text), at),
        0 <= at <= encode_utf8(text).len(),
    ensures
        text == parts.0 + parts.1,
        encode_utf8(parts.0) == encode_utf8(text).take(at),
        encode_utf8(parts.1) == encode_utf8(text).skip(at),
{
    let bytes = encode_utf8(text);
    encode_utf8_valid_utf8(text);
    valid_utf8_split(bytes, at);
    decode_utf8_split(bytes, at);
    encode_utf8_decode_utf8(text);
    let front = decode_utf8(bytes.subrange(0, at));
    let back = decode_utf8(bytes.subrange(at, bytes.len() as int));
    decode_utf8_encode_utf8(bytes.subrange(0, at));
    decode_utf8_encode_utf8(bytes.subrange(at, bytes.len() as int));
    (front, back)
}

/// Two texts with the same encoding are the same text.
pub proof fn lemma_encode_injective(left: Seq<char>, right: Seq<char>)
    requires
        encode_utf8(left) == encode_utf8(right),
    ensures
        left == right,
{
    encode_utf8_decode_utf8(left);
    encode_utf8_decode_utf8(right);
}

/// A valid encoding that begins another one ends on a character boundary
/// of it.
proof fn lemma_prefix_boundary(whole: Seq<u8>, part: Seq<u8>)
    requires
        valid_utf8(whole),
        valid_utf8(part),
        part.len() <= whole.len(),
        whole.take(part.len() as int) == part,
    ensures
        is_char_boundary(whole, part.len() as int),
    decreases part.len(),
{
    if part.len() > 0 {
        let width = length_of_first_scalar(part);
        assert(forall|i: int| 0 <= i < part.len() ==> part[i] == whole.take(part.len() as int)[i]);
        assert(width == length_of_first_scalar(whole));
        assert(valid_first_scalar(whole));
        let whole_rest = pop_first_scalar(whole);
        let part_rest = pop_first_scalar(part);
        assert(whole_rest.take(part_rest.len() as int) =~= part_rest);
        lemma_prefix_boundary(whole_rest, part_rest);
    }
}

/// Where a text holds another at a character index, its encoding holds the
/// other's encoding at the matching byte index.
proof fn lemma_occurs_at_to_bytes(hay: Seq<char>, needle: Seq<char>, at: int)
    requires
        occurs_at(hay, needle, at),
    ensures
        occurs_at(encode_utf8(hay), encode_utf8(needle), encode_utf8(hay.take(at)).len() as int),
{
    let front = hay.take(at);
    let back = hay.skip(at + needle.len());
    assert(hay =~= front + needle + back);
    lemma_encode_concat(front + needle, back);
    lemma_encode_concat(front, needle);
    let start = encode_utf8(front).len() as int;
    assert(encode_utf8(hay).subrange(start, start + encode_utf8(needle).len()) =~= encode_utf8(
        needle,
    ));
}

/// Where an encoding holds another at a byte index, the texts hold each
/// other at some character index.
proof fn lemma_occurs_at_from_bytes(hay: Seq<char>, needle: Seq<char>, start: int)
    requires
        occurs_at(encode_utf8(hay), encode_utf8(needle), start),
    ensures
        occurs_in(hay, needle),
{
    let hay_bytes = encode_utf8(hay);
    let needle_bytes = encode_utf8(needle);
    if needle.len() == 0 {
        assert(hay.subrange(0, 0) =~= needle);
        assert(occurs_at(hay, needle, 0));
    } else {
        assert(!is_continuation_byte(hay_bytes[start])) by {
            lemma_first_byte(needle);
            assert(hay_bytes[start] == hay_bytes.subrange(start, start + needle_bytes.len())[0]);
        }
        assert(is_char_boundary(hay_bytes, start)) by {
            encode_utf8_valid_utf8(hay);
            is_char_boundary_iff_not_is_continuation_byte(hay_bytes, start);
        }
        let (front, rest) = lemma_cut_at_boundary(hay, start);
        let rest_bytes = encode_utf8(rest);
        assert(is_char_boundary(rest_bytes, needle_bytes.len() as int)) by {
            encode_utf8_valid_utf8(rest);
            encode_utf8_valid_utf8(needle);
            assert(rest_bytes.take(needle_bytes.len() as int) =~= needle_bytes);
            lemma_prefix_boundary(rest_bytes, needle_bytes);
        }
        let (middle, back) = lemma_cut_at_boundary(rest, needle_bytes.len() as int);
        assert(middle == needle) by {
            assert(rest_bytes.take(needle_bytes.len() as int) =~= needle_bytes);
            lemma_encode_injective(middle, needle);
        }
        let at = front.len() as int;
        assert(hay.subrange(at, at + needle.len()) =~= needle);
        assert(occurs_at(hay, needle, at));
    }
}

/// A text holds another as a run of characters exactly when its encoding
/// holds the other's encoding as a run of bytes.
pub proof fn lemma_occurs_in_bytes(hay: Seq<char>, needle: Seq<char>)
    ensures
        occurs_in(encode_utf8(hay), encode_utf8(needle)) <==> occurs_in(hay, needle),
{
    if occurs_in(hay, needle) {
        let at = choose|at: int| occurs_at(hay, needle, at);
        lemma_occurs_at_to_bytes(hay, needle, at);
    }
    if occurs_in(encode_utf8(hay), encode_utf8(needle)) {
        let start = choose|start: int| occurs_at(encode_utf8(hay), encode_utf8(needle), start);
        lemma_occurs_at_from_bytes(hay, needle, start);
    }
}

} // verus!
