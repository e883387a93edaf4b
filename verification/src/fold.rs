//! The lower-case text by which lines are matched when case is ignored.
use vstd::prelude::*;
use vstd::utf8::is_ascii_chars;
use crate::text::{occurs_at, occurs_in};

verus! {

/// The lower-case text that `str::to_lowercase` gives for `text`. It follows
/// the Unicode tables, which take pages; it depends on the text alone.
pub uninterp spec fn unicode_lowercase(text: Seq<char>) -> Seq<char>;

/// The lower-case form of one character below 0x80: the letters `A` to `Z`
/// become `a` to `z`, and nothing else changes.
pub open spec fn ascii_lowercase(c: char) -> char {
    if 'A' <= c && c <= 'Z' {
        ((c as u8) + 32) as u8 as char
    } else {
        c
    }
}

/// The text by which a line or a query is matched when case is ignored.
/// Where every character is below 0x80 it is the text with `A` to `Z` made
/// small, character for character; any other text is lowered by the Unicode
/// rules.
pub open spec fn folded(text: Seq<char>) -> Seq<char> {
    if is_ascii_chars(text) {
        text.map_values(|c: char| ascii_lowercase(c))
    } else {
        unicode_lowercase(text)
    }
}

/// Calls `str::to_lowercase`. Believed of it, not proved: on a text of
/// characters below 0x80 it does what `str::to_ascii_lowercase` does, which
/// makes `A` to `Z` small and keeps every other character; on any other
/// text its result is a function of the text alone, named
/// `unicode_lowercase`.
#[verifier::external_body]
pub(crate) fn to_lowercase(text: &str) -> (lowered: String)
    ensures
        is_ascii_chars(text@) ==> lowered@ == text@.map_values(|c: char| ascii_lowercase(c)),
        !is_ascii_chars(text@) ==> lowered@ == unicode_lowercase(text@),
{
    text.to_lowercase()
}

/// A run of a text of characters below 0x80 is such a text.
pub proof fn lemma_run_of_ascii(hay: Seq<char>, needle: Seq<char>)
    requires
        is_ascii_chars(hay),
        occurs_in(hay, needle),
    ensures
        is_ascii_chars(needle),
{
    let at = choose|at: int| occurs_at(hay, needle, at);
    assert forall|i: int| 0 <= i < needle.len() implies '\0' <= #[trigger] needle[i]
        <= '\u{7f}' by {
        assert(needle[i] == hay.subrange(at, at + needle.len())[i]);
    }
}

/// Folding keeps a match in a text of characters below 0x80: where `hay`
/// holds `needle`, the folded `hay` holds the folded `needle`.
pub proof fn lemma_folded_keeps_ascii_match(hay: Seq<char>, needle: Seq<char>)
    requires
        is_ascii_chars(hay),
        occurs_in(hay, needle),
    ensures
        occurs_in(folded(hay), folded(needle)),
{
    lemma_run_of_ascii(hay, needle);
    let at = choose|at: int| occurs_at(hay, needle, at);
    assert forall|i: int| 0 <= i < needle.len() implies folded(hay)[at + i] == folded(
        needle,
    )[i] by {
        assert(needle[i] == hay.subrange(at, at + needle.len())[i]);
    }
    assert(folded(hay).subrange(at, at + folded(needle).len()) =~= folded(needle));
    assert(occurs_at(folded(hay), folded(needle), at));
}

} // verus!
