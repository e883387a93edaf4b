//! Runs and lines of a text, as sequences of characters.
use vstd::prelude::*;

verus! {

/// `needle` stands in `hay` at index `at`, item for item.
pub open spec fn occurs_at<T>(hay: Seq<T>, needle: Seq<T>, at: int) -> bool {
    &&& 0 <= at
    &&& at + needle.len() <= hay.len()
    &&& hay.subrange(at, at + needle.len()) == needle
}

/// `needle` stands somewhere in `hay` as one unbroken run.
pub open spec fn occurs_in<T>(hay: Seq<T>, needle: Seq<T>) -> bool {
    exists|at: int| occurs_at(hay, needle, at)
}

/// The index of the first line feed of `text`, or its length where it has
/// none.
pub open spec fn line_break(text: Seq<char>) -> int
    decreases text.len(),
{
    if text.len() == 0 || text[0] == '\n' {
        0
    } else {
        1 + line_break(text.drop_first())
    }
}

/// The first line of `text`: what stands before its first line feed, less
/// one carriage return where that line feed follows one. A text without a
/// line feed is one line, whatever it ends with.
pub open spec fn first_line(text: Seq<char>) -> Seq<char> {
    let cut = line_break(text);
    let raw = text.take(cut);
    if cut < text.len() && cut > 0 && raw.last() == '\r' {
        raw.drop_last()
    } else {
        raw
    }
}

/// What follows the first line of `text` and its line feed.
pub open spec fn after_first_line(text: Seq<char>) -> Seq<char> {
    let cut = line_break(text);
    if cut < text.len() {
        text.skip(cut + 1)
    } else {
        Seq::empty()
    }
}

/// The lines of `text`, in order. A line ends at a line feed or at a carriage
/// return and line feed, which are not part of it; the last line may end
/// with the text instead. An empty text has no lines.
pub open spec fn lines(text: Seq<char>) -> Seq<Seq<char>>
    decreases text.len(),
{
    if text.len() == 0 {
        Seq::empty()
    } else {
        proof {
            lemma_line_break(text);
        }
        seq![first_line(text)] + lines(after_first_line(text))
    }
}

/// Where the first line feed stands: `line_break` is below the length, at a
/// line feed, or it is the length; nothing before it is a line feed.
pub proof fn lemma_line_break(text: Seq<char>)
    ensures
        0 <= line_break(text) <= text.len(),
        line_break(text) < text.len() ==> text[line_break(text)] == '\n',
        forall|i: int| 0 <= i < line_break(text) ==> text[i] != '\n',
    decreases text.len(),
{
    if text.len() == 0 || text[0] == '\n' {
    } else {
        let rest = text.drop_first();
        lemma_line_break(rest);
        assert forall|i: int| 0 <= i < line_break(text) implies text[i] != '\n' by {
            if i > 0 {
                assert(text[i] == rest[i - 1]);
            }
        }
    }
}

/// An index with no line feed before it, which is the length or holds a line
/// feed, is `line_break`.
pub proof fn lemma_line_break_is(text: Seq<char>, cut: int)
    requires
        0 <= cut <= text.len(),
        forall|i: int| 0 <= i < cut ==> text[i] != '\n',
        cut < text.len() ==> text[cut] == '\n',
    ensures
        line_break(text) == cut,
{
    lemma_line_break(text);
    let found = line_break(text);
    if found < cut {
        assert(text[found] == '\n');
    } else if cut < found {
        assert(text[cut] == '\n');
    }
}

/// Every line of a text is a run of that text.
pub proof fn lemma_line_occurs(text: Seq<char>, index: int)
    requires
        0 <= index < lines(text).len(),
    ensures
        occurs_in(text, lines(text)[index]),
    decreases text.len(),
{
    lemma_line_break(text);
    let line = lines(text)[index];
    if index == 0 {
        assert(text.subrange(0, line.len() as int) =~= line);
        assert(occurs_at(text, line, 0));
    } else {
        let rest = after_first_line(text);
        assert(line == lines(rest)[index - 1]);
        lemma_line_occurs(rest, index - 1);
        let at = choose|at: int| occurs_at(rest, line, at);
        let start = line_break(text) + 1 + at;
        assert(text.subrange(start, start + line.len()) =~= rest.subrange(at, at + line.len()));
        assert(occurs_at(text, line, start));
    }
}

} // verus!
