//! Searching and cutting a text by its bytes.
use vstd::prelude::*;
use vstd::utf8::*;
use vstd::string::StringSliceAdditionalSpecFns;
use crate::encoding::{
    lemma_ascii_char_is_byte, lemma_cut_at_boundary, lemma_encode_injective, lemma_encode_len,
    lemma_first_byte, lemma_last_byte, lemma_occurs_in_bytes,
};
use crate::text::{after_first_line, first_line, lemma_line_break_is, occurs_at, occurs_in};

verus! {

/// Whether the bytes of `needle` stand in `hay` from index `at` on.
fn bytes_match_at(hay: &[u8], needle: &[u8], at: usize) -> (same: bool)
    requires
        at + needle.len() <= hay.len(),
    ensures
        same == occurs_at(hay@, needle@, at as int),
{
    let width: usize = needle.len();
    let mut i: usize = 0;
    while i < width
        invariant
            width == needle@.len(),
            at + width <= hay.len(),
            0 <= i <= width,
            forall|j: int| 0 <= j < i ==> hay@[at + j] == needle@[j],
        decreases width - i,
    {
        if hay[at + i] != needle[i] {
            proof {
                let run = hay@.subrange(at as int, at + width);
                assert(run[i as int] != needle@[i as int]);
            }
            return false;
        }
        i += 1;
    }
    proof {
        assert(hay@.subrange(at as int, at + width) =~= needle@);
    }
    true
}

/// Whether `hay` holds `needle` as one unbroken run of characters. The empty
/// text is held by every text.
pub fn contains(hay: &str, needle: &str) -> (found: bool)
    ensures
        found == occurs_in(hay@, needle@),
{
    let hay_bytes = hay.as_bytes();
    let needle_bytes = needle.as_bytes();
    proof {
        lemma_occurs_in_bytes(hay@, needle@);
    }
    if needle_bytes.len() > hay_bytes.len() {
        return false;
    }
    let last: usize = hay_bytes.len() - needle_bytes.len();
    let mut at: usize = 0;
    loop
        invariant
            last == hay_bytes@.len() - needle_bytes@.len(),
            0 <= at <= last,
            forall|k: int| 0 <= k < at ==> !occurs_at(hay_bytes@, needle_bytes@, k),
            occurs_in(hay_bytes@, needle_bytes@) <==> occurs_in(hay@, needle@),
        decreases last - at,
    {
        if bytes_match_at(hay_bytes, needle_bytes, at) {
            return true;
        }
        if at == last {
            return false;
        }
        at += 1;
    }
}

/// Whether two texts are the same, character for character.
pub fn same_text(left: &str, right: &str) -> (same: bool)
    ensures
        same == (left@ == right@),
{
    let left_bytes = left.as_bytes();
    let right_bytes = right.as_bytes();
    proof {
        if left_bytes@ == right_bytes@ {
            lemma_encode_injective(left@, right@);
        }
    }
    if left_bytes.len() != right_bytes.len() {
        return false;
    }
    let same = bytes_match_at(left_bytes, right_bytes, 0);
    proof {
        assert(left_bytes@.subrange(0, right_bytes@.len() as int) =~= left_bytes@);
    }
    same
}

/// Cuts `text` in two before byte `at`, where a character begins or the text
/// ends.
fn cut<'a>(text: &'a str, at: usize) -> (parts: (&'a str, &'a str))
    requires
        at <= text.spec_bytes().len(),
        is_char_boundary(text.spec_bytes(), at as int),
    ensures
        text@ == parts.0@ + parts.1@,
        parts.0.spec_bytes() == text.spec_bytes().take(at as int),
        parts.1.spec_bytes() == text.spec_bytes().skip(at as int),
{
    let parts = text.split_at(at);
    proof {
        let (front, back) = lemma_cut_at_boundary(text@, at as int);
        lemma_encode_injective(front, parts.0@);
        lemma_encode_injective(back, parts.1@);
    }
    parts
}

/// Takes the first line off `text`: the line without its ending, and what
/// follows the ending.
pub fn split_line<'a>(text: &'a str) -> (parts: (&'a str, &'a str))
    ensures
        parts.0@ == first_line(text@),
        parts.1@ == after_first_line(text@),
{
    let bytes = text.as_bytes();
    let total: usize = bytes.len();
    let mut end: usize = 0;
    while end < total && bytes[end] != 0x0A
        invariant
            total == bytes@.len(),
            end <= total,
            forall|j: int| 0 <= j < end ==> bytes@[j] != 0x0A,
        decreases total - end,
    {
        end += 1;
    }
    proof {
        encode_utf8_valid_utf8(text@);
        if end < total {
            is_char_boundary_iff_not_is_continuation_byte(bytes@, end as int);
        } else {
            is_char_boundary_start_end_of_seq(bytes@);
        }
    }
    let (head, tail) = cut(text, end);
    proof {
        assert forall|k: int| 0 <= k < head@.len() implies head@[k] != '\n' by {
            if head@[k] == '\n' {
                lemma_ascii_char_is_byte(head@, k);
                let i = choose|i: int|
                    0 <= i < encode_utf8(head@).len() && head@[k] == encode_utf8(head@)[i] as char;
                assert(bytes@[i] == encode_utf8(head@)[i]);
            }
        }
        lemma_encode_len(tail@);
        if end < total {
            assert(tail@.len() > 0);
            lemma_first_byte(tail@);
            assert(tail@[0] == '\n');
        }
        lemma_line_break_is(text@, head@.len() as int);
        assert(text@.take(head@.len() as int) =~= head@);
    }
    if end == total {
        proof {
            assert(tail@ =~= Seq::<char>::empty());
        }
        return (head, tail);
    }
    proof {
        encode_utf8_valid_utf8(tail@);
        reveal_with_fuel(is_char_boundary, 2);
    }
    let (feed, rest) = cut(tail, 1);
    proof {
        lemma_encode_len(feed@);
        assert(feed@.len() == 1);
        assert(rest@ =~= text@.skip(head@.len() as int + 1));
    }
    if end > 0 && bytes[end - 1] == 0x0D {
        proof {
            encode_utf8_valid_utf8(head@);
            is_char_boundary_iff_not_is_continuation_byte(head.spec_bytes(), end - 1);
        }
        let (line, _) = cut(head, end - 1);
        proof {
            lemma_encode_len(head@);
            lemma_last_byte(head@);
            assert(head@.last() == '\r');
            lemma_encode_injective(line@, head@.drop_last());
        }
        (line, rest)
    } else {
        proof {
            lemma_encode_len(head@);
            if head@.len() > 0 && head@.last() == '\r' {
                lemma_last_byte(head@);
            }
        }
        (head, rest)
    }
}

} // verus!
