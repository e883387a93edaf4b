//! Text without the white space at its ends.
use vstd::prelude::*;

verus! {

/// The text that `str::trim` gives for `text`: the text without the white
/// space that it begins and ends with. What counts as white space is a
/// table of Unicode; the result depends on the text alone.
pub uninterp spec fn trimmed(text: Seq<char>) -> Seq<char>;

/// Calls `str::trim`. Believed of it, not proved: its result is a function
/// of the text alone, named `trimmed`.
#[verifier::external_body]
pub(crate) fn trim<'a>(text: &'a str) -> (inner: &'a str)
    ensures
        inner@ == trimmed(text@),
{
    text.trim()
}

} // verus!
