//! The search itself: the lines of a text that hold a query.

use vstd::prelude::*;
use crate::fold::lowercase;
use crate::lines::{after_first_line, first_line, lines_of, split_first_line};
use crate::selection::{
    in_order_of,
    lemma_filter_all,
    lemma_filter_in_order,
    lemma_filter_sub_multiset,
    lemma_picked_are_entries,
};
use crate::substring::{contains, has_substring, occurs_at};

verus! {

/// The test that a line holds `query` as it is written.
pub open spec fn holds(query: Seq<char>) -> spec_fn(Seq<char>) -> bool {
    |line: Seq<char>| has_substring(line, query)
}

/// The test that a line holds `query` once both are in lowercase.
pub open spec fn holds_folded(query: Seq<char>) -> spec_fn(Seq<char>) -> bool {
    |line: Seq<char>| has_substring(lowercase(line), lowercase(query))
}

/// The lines of `contents` that hold `query`, in the order of `contents`.
pub open spec fn case_sensitive_matches(query: Seq<char>, contents: Seq<char>) -> Seq<Seq<char>> {
    lines_of(contents).filter(holds(query))
}

/// The lines of `contents` that hold `query` without regard to case, in the
/// order of `contents` and as they are written there.
pub open spec fn case_insensitive_matches(query: Seq<char>, contents: Seq<char>) -> Seq<
    Seq<char>,
> {
    lines_of(contents).filter(holds_folded(query))
}

/// Every match is a line of the contents, and no line is matched more often
/// than it stands in the contents.
pub proof fn lemma_matches_are_lines(query: Seq<char>, contents: Seq<char>)
    ensures
        case_sensitive_matches(query, contents).to_multiset().subset_of(
            lines_of(contents).to_multiset(),
        ),
        case_insensitive_matches(query, contents).to_multiset().subset_of(
            lines_of(contents).to_multiset(),
        ),
        forall|i: int|
            0 <= i < case_sensitive_matches(query, contents).len() ==> lines_of(contents).contains(
                #[trigger] case_sensitive_matches(query, contents)[i],
            ),
        forall|i: int|
            0 <= i < case_insensitive_matches(query, contents).len() ==> lines_of(
                contents,
            ).contains(#[trigger] case_insensitive_matches(query, contents)[i]),
{
    let lines = lines_of(contents);
    lemma_filter_sub_multiset(lines, holds(query));
    lemma_filter_sub_multiset(lines, holds_folded(query));
    lemma_matches_in_line_order(query, contents);
    lemma_picked_are_entries(case_sensitive_matches(query, contents), lines);
    lemma_picked_are_entries(case_insensitive_matches(query, contents), lines);
}

/// Every match of the case-sensitive search holds the query, and every match
/// of the case-insensitive search holds it once both are in lowercase.
pub proof fn lemma_matches_hold_query(query: Seq<char>, contents: Seq<char>)
    ensures
        forall|i: int|
            0 <= i < case_sensitive_matches(query, contents).len() ==> has_substring(
                #[trigger] case_sensitive_matches(query, contents)[i],
                query,
            ),
        forall|i: int|
            0 <= i < case_insensitive_matches(query, contents).len() ==> has_substring(
                lowercase(#[trigger] case_insensitive_matches(query, contents)[i]),
                lowercase(query),
            ),
{
    let lines = lines_of(contents);
    assert forall|i: int| 0 <= i < lines.filter(holds(query)).len() implies has_substring(
        #[trigger] lines.filter(holds(query))[i],
        query,
    ) by {
        lines.lemma_filter_pred(holds(query), i);
    }
    assert forall|i: int| 0 <= i < lines.filter(holds_folded(query)).len() implies has_substring(
        lowercase(#[trigger] lines.filter(holds_folded(query))[i]),
        lowercase(query),
    ) by {
        lines.lemma_filter_pred(holds_folded(query), i);
    }
}

/// The matches stand in the order of the lines that they were taken from.
pub proof fn lemma_matches_in_line_order(query: Seq<char>, contents: Seq<char>)
    ensures
        in_order_of(case_sensitive_matches(query, contents), lines_of(contents)),
        in_order_of(case_insensitive_matches(query, contents), lines_of(contents)),
{
    lemma_filter_in_order(lines_of(contents), holds(query));
    lemma_filter_in_order(lines_of(contents), holds_folded(query));
}

/// The empty query is held by every line, so the case-sensitive search for
/// it returns all the lines.
pub proof fn lemma_empty_query_matches_every_line(contents: Seq<char>)
    ensures
        case_sensitive_matches(Seq::empty(), contents) == lines_of(contents),
{
    let lines = lines_of(contents);
    let nothing = Seq::<char>::empty();
    assert forall|i: int| 0 <= i < lines.len() implies holds(nothing)(#[trigger] lines[i]) by {
        assert(lines[i].subrange(0, 0) =~= nothing);
        assert(occurs_at(lines[i], nothing, 0));
    }
    lemma_filter_all(lines, holds(nothing));
}

/// The case-insensitive search sees of a query only its lowercase form: two
/// queries with the same lowercase form match the same lines.
pub proof fn lemma_same_fold_same_matches(first: Seq<char>, second: Seq<char>, contents: Seq<char>)
    ensures
        lowercase(first) == lowercase(second) ==> case_insensitive_matches(first, contents)
            == case_insensitive_matches(second, contents),
{
    if lowercase(first) == lowercase(second) {
        assert(holds_folded(first) == holds_folded(second));
    }
}

/// One step of a scan: the matches among the lines of `text` are its first
/// line, if `keep` accepts it, and the matches among the lines after it.
proof fn lemma_scan_step(text: Seq<char>, keep: spec_fn(Seq<char>) -> bool)
    requires
        text.len() > 0,
    ensures
        lines_of(text).filter(keep) == (if keep(first_line(text)) {
            seq![first_line(text)]
        } else {
            Seq::empty()
        }) + lines_of(after_first_line(text)).filter(keep),
{
    lines_of(after_first_line(text)).lemma_filter_prepend(first_line(text), keep);
}

/// A text without characters has no lines, so nothing matches in it.
proof fn lemma_scan_end(text: Seq<char>, keep: spec_fn(Seq<char>) -> bool)
    requires
        text.len() == 0,
    ensures
        lines_of(text).filter(keep) == Seq::<Seq<char>>::empty(),
{
    reveal(Seq::filter);
}

/// The lines of `contents` that hold `query` as a contiguous run of
/// characters, each as a slice of `contents`, in the order of `contents`.
pub fn search_case_sensitive<'a>(query: &str, contents: &'a str) -> (results: Vec<&'a str>)
    ensures
        results.deep_view() == case_sensitive_matches(query@, contents@),
        results.deep_view().to_multiset().subset_of(lines_of(contents@).to_multiset()),
        in_order_of(results.deep_view(), lines_of(contents@)),
        forall|i: int|
            0 <= i < results@.len() ==> lines_of(contents@).contains(#[trigger] results@[i]@),
        forall|i: int| 0 <= i < results@.len() ==> has_substring(#[trigger] results@[i]@, query@),
        query@.len() == 0 ==> results.deep_view() == lines_of(contents@),
{
    let mut results: Vec<&'a str> = Vec::new();
    let mut rest: &'a str = contents;
    loop
        invariant
            case_sensitive_matches(query@, contents@) == results.deep_view() + lines_of(
                rest@,
            ).filter(holds(query@)),
        decreases rest@.len(),
    {
        match split_first_line(rest) {
            None => {
                proof {
                    lemma_scan_end(rest@, holds(query@));
                    let matches = case_sensitive_matches(query@, contents@);
                    assert(results.deep_view() =~= matches);
                    lemma_matches_are_lines(query@, contents@);
                    lemma_matches_hold_query(query@, contents@);
                    lemma_matches_in_line_order(query@, contents@);
                    assert forall|i: int| 0 <= i < results@.len() implies #[trigger] results@[i]@
                        == matches[i] by {
                        assert(results.deep_view()[i] == results@[i]@);
                    }
                    if query@.len() == 0 {
                        assert(query@ =~= Seq::<char>::empty());
                        lemma_empty_query_matches_every_line(contents@);
                    }
                }
                return results;
            },
            Some((line, tail)) => {
                let ghost found = results.deep_view();
                proof {
                    lemma_scan_step(rest@, holds(query@));
                }
                if contains(line, query) {
                    results.push(line);
                    assert(results.deep_view() =~= found + seq![line@]);
                }
                rest = tail;
            },
        }
    }
}

/// The lines of `contents` whose lowercase form holds the lowercase form of
/// `query`, each as a slice of `contents` in its own spelling, in the order
/// of `contents`.
pub fn search_case_insensitive<'a>(query: &str, contents: &'a str) -> (results: Vec<&'a str>)
    ensures
        results.deep_view() == case_insensitive_matches(query@, contents@),
        results.deep_view().to_multiset().subset_of(lines_of(contents@).to_multiset()),
        in_order_of(results.deep_view(), lines_of(contents@)),
        forall|i: int|
            0 <= i < results@.len() ==> lines_of(contents@).contains(#[trigger] results@[i]@),
        forall|i: int|
            0 <= i < results@.len() ==> has_substring(
                lowercase(#[trigger] results@[i]@),
                lowercase(query@),
            ),
{
    let folded_query = query.to_lowercase();
    let mut results: Vec<&'a str> = Vec::new();
    let mut rest: &'a str = contents;
    loop
        invariant
            folded_query@ == lowercase(query@),
            case_insensitive_matches(query@, contents@) == results.deep_view() + lines_of(
                rest@,
            ).filter(holds_folded(query@)),
        decreases rest@.len(),
    {
        match split_first_line(rest) {
            None => {
                proof {
                    lemma_scan_end(rest@, holds_folded(query@));
                    let matches = case_insensitive_matches(query@, contents@);
                    assert(results.deep_view() =~= matches);
                    lemma_matches_are_lines(query@, contents@);
                    lemma_matches_hold_query(query@, contents@);
                    lemma_matches_in_line_order(query@, contents@);
                    assert forall|i: int| 0 <= i < results@.len() implies #[trigger] results@[i]@
                        == matches[i] by {
                        assert(results.deep_view()[i] == results@[i]@);
                    }
                }
                return results;
            },
            Some((line, tail)) => {
                let ghost found = results.deep_view();
                proof {
                    lemma_scan_step(rest@, holds_folded(query@));
                }
                let folded_line = line.to_lowercase();
                if contains(folded_line.as_str(), folded_query.as_str()) {
                    results.push(line);
                    assert(results.deep_view() =~= found + seq![line@]);
                }
                rest = tail;
            },
        }
    }
}

} // verus!
