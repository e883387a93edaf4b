//! The lines of a text that hold a query, and what holds of them.
use vstd::prelude::*;
use vstd::utf8::is_ascii_chars;
use crate::config::{Config, ConfigView};
use crate::fold::{folded, lemma_folded_keeps_ascii_match, lemma_run_of_ascii, to_lowercase};
use crate::scan::{contains, split_line};
use crate::trim::{trim, trimmed};
use crate::text::{
    after_first_line, first_line, lemma_line_break, lemma_line_occurs, lines, occurs_at, occurs_in,
};

verus! {

/// The lines of `contents` that hold `query`, in the order of the text.
pub open spec fn matching_lines(query: Seq<char>, contents: Seq<char>) -> Seq<Seq<char>> {
    lines(contents).filter(|line: Seq<char>| occurs_in(line, query))
}

/// The lines of `contents` whose folded text holds the folded `query`, in
/// the order of the text and as they stand in it.
pub open spec fn matching_lines_folded(query: Seq<char>, contents: Seq<char>) -> Seq<Seq<char>> {
    lines(contents).filter(|line: Seq<char>| occurs_in(folded(line), folded(query)))
}

/// The lines that a search under `config` finds in `contents`.
pub open spec fn selected_lines(config: ConfigView, contents: Seq<char>) -> Seq<Seq<char>> {
    if config.ignore_case {
        matching_lines_folded(config.query, contents)
    } else {
        matching_lines(config.query, contents)
    }
}

/// `taken` holds items of `from` in the order of `from`: item `k` of it
/// stands in `from` at `places[k]`, and the places rise.
pub open spec fn taken_in_order<A>(taken: Seq<A>, from: Seq<A>, places: Seq<int>) -> bool {
    &&& places.len() == taken.len()
    &&& forall|k: int|
        0 <= k < places.len() ==> 0 <= #[trigger] places[k] < from.len() && taken[k]
            == from[places[k]]
    &&& forall|j: int, k: int| 0 <= j < k < places.len() ==> places[j] < places[k]
}

/// The lines of a text are its first line, then the lines of the rest; a
/// filter goes through that step.
proof fn lemma_filter_step(contents: Seq<char>, keep: spec_fn(Seq<char>) -> bool)
    requires
        contents.len() > 0,
    ensures
        lines(contents).filter(keep) == (if keep(first_line(contents)) {
            seq![first_line(contents)]
        } else {
            Seq::empty()
        }) + lines(after_first_line(contents)).filter(keep),
        after_first_line(contents).len() < contents.len(),
{
    lemma_line_break(contents);
    lines(after_first_line(contents)).lemma_filter_prepend(first_line(contents), keep);
}

/// The lines of `contents` that hold `query` as an unbroken run of
/// characters, case for case, in the order of the text. Every line holds the
/// empty query.
pub fn search<'a>(query: &str, contents: &'a str) -> (found: Vec<&'a str>)
    ensures
        found.deep_view() == matching_lines(query@, contents@),
{
    let ghost keep = |line: Seq<char>| occurs_in(line, query@);
    let mut found: Vec<&'a str> = Vec::new();
    let mut rest: &'a str = contents;
    proof {
        assert(found.deep_view() + lines(rest@).filter(keep) =~= lines(contents@).filter(keep));
    }
    while !rest.is_empty()
        invariant
            keep == (|line: Seq<char>| occurs_in(line, query@)),
            lines(contents@).filter(keep) == found.deep_view() + lines(rest@).filter(keep),
        decreases rest@.len(),
    {
        let ghost before = found.deep_view();
        let (line, tail) = split_line(rest);
        proof {
            lemma_filter_step(rest@, keep);
        }
        if contains(line, query) {
            found.push(line);
        }
        proof {
            let step = if keep(line@) {
                seq![line@]
            } else {
                Seq::empty()
            };
            assert(found.deep_view() =~= before + step);
            assert(found.deep_view() + lines(tail@).filter(keep) =~= before + (step + lines(
                tail@,
            ).filter(keep)));
        }
        rest = tail;
    }
    proof {
        reveal(Seq::filter);
        assert(lines(rest@).filter(keep) =~= Seq::empty());
        assert(found.deep_view() + Seq::<Seq<char>>::empty() =~= found.deep_view());
    }
    found
}

/// The lines of `contents` that hold `query` when case is ignored, in the
/// order of the text and as they stand in it: a line is kept where its
/// folded text holds the folded query.
pub fn search_case_insensitive<'a>(query: &str, contents: &'a str) -> (found: Vec<&'a str>)
    ensures
        found.deep_view() == matching_lines_folded(query@, contents@),
{
    let query = to_lowercase(query);
    let ghost keep = |line: Seq<char>| occurs_in(folded(line), query@);
    let mut found: Vec<&'a str> = Vec::new();
    let mut rest: &'a str = contents;
    proof {
        assert(found.deep_view() + lines(rest@).filter(keep) =~= lines(contents@).filter(keep));
    }
    while !rest.is_empty()
        invariant
            keep == (|line: Seq<char>| occurs_in(folded(line), query@)),
            lines(contents@).filter(keep) == found.deep_view() + lines(rest@).filter(keep),
        decreases rest@.len(),
    {
        let ghost before = found.deep_view();
        let (line, tail) = split_line(rest);
        proof {
            lemma_filter_step(rest@, keep);
        }
        let lowered = to_lowercase(line);
        if contains(lowered.as_str(), query.as_str()) {
            found.push(line);
        }
        proof {
            let step = if keep(line@) {
                seq![line@]
            } else {
                Seq::empty()
            };
            assert(found.deep_view() =~= before + step);
            assert(found.deep_view() + lines(tail@).filter(keep) =~= before + (step + lines(
                tail@,
            ).filter(keep)));
        }
        rest = tail;
    }
    proof {
        reveal(Seq::filter);
        assert(lines(rest@).filter(keep) =~= Seq::empty());
        assert(found.deep_view() + Seq::<Seq<char>>::empty() =~= found.deep_view());
    }
    found
}

/// The lines of `contents` that hold `query`, case for case and in the order
/// of the text, each without the white space at its two ends. A line is
/// tested as it stands and trimmed after.
pub fn _search2<'a>(query: &'a str, contents: &'a str) -> (found: Vec<&'a str>)
    ensures
        found.deep_view() == matching_lines(query@, contents@).map_values(
            |line: Seq<char>| trimmed(line),
        ),
{
    let whole = search(query, contents);
    let mut found: Vec<&'a str> = Vec::new();
    let mut i: usize = 0;
    while i < whole.len()
        invariant
            0 <= i <= whole.len(),
            found.deep_view() == whole.deep_view().take(i as int).map_values(
                |line: Seq<char>| trimmed(line),
            ),
        decreases whole.len() - i,
    {
        let ghost before = found.deep_view();
        found.push(trim(whole[i]));
        proof {
            let line = whole.deep_view()[i as int];
            assert(whole.deep_view().take(i + 1) =~= whole.deep_view().take(i as int).push(line));
            assert(found.deep_view() =~= before.push(trimmed(line)));
        }
        i += 1;
    }
    proof {
        assert(whole.deep_view().take(i as int) =~= whole.deep_view());
    }
    found
}

/// Searches the contents of a file as `config` asks: for its query, and with
/// case ignored where it says so. The lines found come back in the order of
/// the text, for the caller to print.
pub fn run<'a>(config: &Config, contents: &'a str) -> (found: Vec<&'a str>)
    ensures
        found.deep_view() == selected_lines(config@, contents@),
{
    if config.ignore_case {
        search_case_insensitive(config.query.as_str(), contents)
    } else {
        search(config.query.as_str(), contents)
    }
}

/// A filter that every item passes keeps the sequence.
proof fn lemma_filter_keeps_all<A>(items: Seq<A>, keep: spec_fn(A) -> bool)
    requires
        forall|i: int| 0 <= i < items.len() ==> keep(#[trigger] items[i]),
    ensures
        items.filter(keep) == items,
    decreases items.len(),
{
    reveal(Seq::filter);
    if items.len() > 0 {
        lemma_filter_keeps_all(items.drop_last(), keep);
        assert(items.drop_last().push(items.last()) =~= items);
    }
}

/// Where whatever passes `inner` passes `outer`, filtering by `outer` first
/// changes nothing of what `inner` keeps.
proof fn lemma_filter_twice<A>(items: Seq<A>, outer: spec_fn(A) -> bool, inner: spec_fn(A) -> bool)
    requires
        forall|i: int| 0 <= i < items.len() && inner(#[trigger] items[i]) ==> outer(items[i]),
    ensures
        items.filter(outer).filter(inner) == items.filter(inner),
    decreases items.len(),
{
    reveal(Seq::filter);
    if items.len() > 0 {
        let front = items.drop_last();
        lemma_filter_twice(front, outer, inner);
        if outer(items.last()) {
            front.filter(outer).lemma_filter_push(items.last(), inner);
        }
    }
}

/// What a filter keeps, it keeps in the order of the sequence.
proof fn lemma_filter_in_order<A>(items: Seq<A>, keep: spec_fn(A) -> bool) -> (places: Seq<int>)
    ensures
        taken_in_order(items.filter(keep), items, places),
    decreases items.len(),
{
    reveal(Seq::filter);
    if items.len() == 0 {
        Seq::empty()
    } else {
        let front = items.drop_last();
        let before = lemma_filter_in_order(front, keep);
        if keep(items.last()) {
            before.push(items.len() - 1)
        } else {
            before
        }
    }
}

/// What a filter keeps passes it, what passes it is kept, and the order
/// stays.
proof fn lemma_filter_exact<A>(items: Seq<A>, keep: spec_fn(A) -> bool)
    ensures
        forall|k: int|
            0 <= k < items.filter(keep).len() ==> keep(#[trigger] items.filter(keep)[k]),
        forall|i: int|
            0 <= i < items.len() ==> (keep(items[i]) <==> items.filter(keep).contains(
                #[trigger] items[i],
            )),
        exists|places: Seq<int>| taken_in_order(items.filter(keep), items, places),
{
    let kept = items.filter(keep);
    assert forall|k: int| 0 <= k < kept.len() implies keep(#[trigger] kept[k]) by {
        items.lemma_filter_pred(keep, k);
    }
    assert forall|i: int| 0 <= i < items.len() implies (keep(items[i]) <==> kept.contains(
        #[trigger] items[i],
    )) by {
        if keep(items[i]) {
            items.lemma_filter_contains(keep, i);
        }
        if kept.contains(items[i]) {
            let k = choose|k: int| 0 <= k < kept.len() && kept[k] == items[i];
            assert(keep(kept[k]));
        }
    }
    let places = lemma_filter_in_order(items, keep);
}

/// An empty query is held by every line: a search for it gives every line
/// of the contents, with case or without.
pub proof fn lemma_empty_query_finds_every_line(contents: Seq<char>)
    ensures
        matching_lines(Seq::empty(), contents) == lines(contents),
        matching_lines_folded(Seq::empty(), contents) == lines(contents),
{
    let nothing = Seq::<char>::empty();
    assert(folded(nothing) =~= nothing);
    assert forall|line: Seq<char>| occurs_in(line, nothing) by {
        assert(line.subrange(0, 0) =~= nothing);
        assert(occurs_at(line, nothing, 0));
    }
    lemma_filter_keeps_all(lines(contents), |line: Seq<char>| occurs_in(line, nothing));
    lemma_filter_keeps_all(
        lines(contents),
        |line: Seq<char>| occurs_in(folded(line), folded(nothing)),
    );
}

/// A search finds exactly the lines that hold the query: every line found
/// holds it, a line of the contents is found if and only if it holds it, and
/// the lines found stand in the order of the contents.
pub proof fn lemma_search_finds_exactly(query: Seq<char>, contents: Seq<char>)
    ensures
        forall|k: int|
            0 <= k < matching_lines(query, contents).len() ==> occurs_in(
                #[trigger] matching_lines(query, contents)[k],
                query,
            ),
        forall|i: int|
            0 <= i < lines(contents).len() ==> (occurs_in(lines(contents)[i], query)
                <==> matching_lines(query, contents).contains(#[trigger] lines(contents)[i])),
        exists|places: Seq<int>|
            taken_in_order(matching_lines(query, contents), lines(contents), places),
{
    lemma_filter_exact(lines(contents), |line: Seq<char>| occurs_in(line, query));
}

/// A search that ignores case finds exactly the lines whose folded text
/// holds the folded query, as they stand in the contents and in their order.
pub proof fn lemma_search_folded_finds_exactly(query: Seq<char>, contents: Seq<char>)
    ensures
        forall|k: int|
            0 <= k < matching_lines_folded(query, contents).len() ==> occurs_in(
                folded(#[trigger] matching_lines_folded(query, contents)[k]),
                folded(query),
            ),
        forall|i: int|
            0 <= i < lines(contents).len() ==> (occurs_in(
                folded(lines(contents)[i]),
                folded(query),
            ) <==> matching_lines_folded(query, contents).contains(#[trigger] lines(contents)[i])),
        exists|places: Seq<int>|
            taken_in_order(matching_lines_folded(query, contents), lines(contents), places),
{
    lemma_filter_exact(
        lines(contents),
        |line: Seq<char>| occurs_in(folded(line), folded(query)),
    );
}

/// Where folding keeps every match of the query in a line of the contents,
/// ignoring case only adds lines: what the plain search finds is what it
/// would find among the lines found without case, in the same order.
pub proof fn lemma_ignoring_case_adds_lines(query: Seq<char>, contents: Seq<char>)
    requires
        forall|i: int|
            0 <= i < lines(contents).len() && occurs_in(#[trigger] lines(contents)[i], query)
                ==> occurs_in(folded(lines(contents)[i]), folded(query)),
    ensures
        matching_lines(query, contents) == matching_lines_folded(query, contents).filter(
            |line: Seq<char>| occurs_in(line, query),
        ),
        forall|k: int|
            0 <= k < matching_lines(query, contents).len() ==> matching_lines_folded(
                query,
                contents,
            ).contains(#[trigger] matching_lines(query, contents)[k]),
{
    let plain = |line: Seq<char>| occurs_in(line, query);
    let loose = |line: Seq<char>| occurs_in(folded(line), folded(query));
    lemma_filter_twice(lines(contents), loose, plain);
    let wide = matching_lines_folded(query, contents);
    assert forall|k: int| 0 <= k < wide.filter(plain).len() implies wide.contains(
        #[trigger] wide.filter(plain)[k],
    ) by {
        assert(wide.filter(plain).contains(wide.filter(plain)[k]));
        wide.lemma_filter_contains_rev(plain, wide.filter(plain)[k]);
    }
}

/// In contents of characters below 0x80 folding keeps every match, so
/// ignoring case only adds lines there.
pub proof fn lemma_ignoring_case_adds_lines_ascii(query: Seq<char>, contents: Seq<char>)
    requires
        is_ascii_chars(contents),
    ensures
        matching_lines(query, contents) == matching_lines_folded(query, contents).filter(
            |line: Seq<char>| occurs_in(line, query),
        ),
        forall|k: int|
            0 <= k < matching_lines(query, contents).len() ==> matching_lines_folded(
                query,
                contents,
            ).contains(#[trigger] matching_lines(query, contents)[k]),
{
    assert forall|i: int|
        0 <= i < lines(contents).len() && occurs_in(
            #[trigger] lines(contents)[i],
            query,
        ) implies occurs_in(folded(lines(contents)[i]), folded(query)) by {
        lemma_line_occurs(contents, i);
        lemma_run_of_ascii(contents, lines(contents)[i]);
        lemma_folded_keeps_ascii_match(lines(contents)[i], query);
    }
    lemma_ignoring_case_adds_lines(query, contents);
}

/// A search depends on the query and the contents alone: two runs on the
/// same two give the same lines in the same order, with case or without.
pub proof fn lemma_search_repeats(
    config: ConfigView,
    contents: Seq<char>,
    first: Seq<Seq<char>>,
    second: Seq<Seq<char>>,
)
    requires
        first == selected_lines(config, contents),
        second == selected_lines(config, contents),
    ensures
        first == second,
        first.len() == second.len(),
        forall|k: int| 0 <= k < first.len() ==> first[k] == second[k],
{
}

} // verus!
