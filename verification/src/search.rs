//! The search itself: which lines of a text are selected, and under which numbers.

use crate::lines::{lines_of, split_first_line};
use crate::matching::{has_substring, text_contains};
use crate::params::{Params, ParamsView};
use std::collections::HashMap;
use vstd::prelude::*;

verus! {

/// The lower-case form of a text, as `str::to_lowercase` gives it: a name for
/// that result, of which nothing else is stated here.
pub uninterp spec fn lowercase(text: Seq<char>) -> Seq<char>;

/// Calls `str::to_lowercase`. Not proved: that what it returns depends on the
/// characters of the text alone, so that [`lowercase`] can name it. The standard
/// library folds by Unicode's tables and regards no locale.
#[verifier::external_body]
fn to_lowercase(text: &str) -> (folded: String)
    ensures
        folded@ == lowercase(text@),
{
    text.to_lowercase()
}

/// A text in the form in which it is compared: in lower case where case is
/// ignored, unchanged otherwise.
pub open spec fn compared(p: ParamsView, text: Seq<char>) -> Seq<char> {
    if p.case_insensitive {
        lowercase(text)
    } else {
        text
    }
}

/// Whether a line is selected: a line that contains the query is selected
/// unless the match is inverted, and a line that does not contain it is selected
/// only if the match is inverted.
pub open spec fn is_selected(p: ParamsView, line: Seq<char>) -> bool {
    has_substring(compared(p, line), compared(p, p.query)) != p.invert_match
}

/// The selected lines among `lines`, each under its 1-based number and as it
/// stands in the text, whatever the form in which it was compared.
pub open spec fn selected_among(p: ParamsView, lines: Seq<Seq<char>>) -> Map<usize, Seq<char>> {
    Map::new(
        |number: usize| 1 <= number <= lines.len() && is_selected(p, lines[number - 1]),
        |number: usize| lines[number - 1],
    )
}

/// What a search of `text` finds.
pub open spec fn matches_of(p: ParamsView, text: Seq<char>) -> Map<usize, Seq<char>> {
    selected_among(p, lines_of(text))
}

/// The texts of the lines that a result holds, under their numbers.
pub open spec fn texts_of<'a>(found: Map<usize, &'a str>) -> Map<usize, Seq<char>> {
    found.map_values(|line: &'a str| line@)
}

/// Decides on one line, given the line and the query in the form in which they
/// are compared.
pub fn selects(line: &str, query: &str, invert_match: bool) -> (selected: bool)
    ensures
        selected == (has_substring(line@, query@) != invert_match),
{
    text_contains(line, query) != invert_match
}

/// Searches `file`, the text of a file, line by line, and returns the selected
/// lines under their 1-based numbers. Each line is a slice of `file`, as it
/// stands there; every line number fits a `usize`.
pub fn search<'a>(params: &Params, file: &'a str) -> (results: HashMap<usize, &'a str>)
    ensures
        texts_of(results@) == matches_of(params@, file@),
        lines_of(file@).len() <= usize::MAX,
{
    let query = if params.is_case_insensitive() {
        to_lowercase(params.query())
    } else {
        params.query().to_owned()
    };
    let mut results: HashMap<usize, &'a str> = HashMap::new();
    let mut rest: &'a str = file;
    let mut count: usize = 0;
    let ghost mut done: Seq<Seq<char>> = Seq::empty();
    loop
        invariant
            query@ == compared(params@, params@.query),
            done.len() == count,
            done + lines_of(rest@) == lines_of(file@),
            count == 0 || count + rest@.len() <= usize::MAX,
            texts_of(results@) =~= selected_among(params@, done),
        decreases rest@.len(),
    {
        let ghost before = results@;
        match split_first_line(rest) {
            None => {
                return results;
            },
            Some((line, tail)) => {
                let selected = if params.is_case_insensitive() {
                    let folded = to_lowercase(line);
                    selects(folded.as_str(), query.as_str(), params.is_inverted())
                } else {
                    selects(line, query.as_str(), params.is_inverted())
                };
                count += 1;
                if selected {
                    results.insert(count, line);
                }
                proof {
                    let longer = done.push(line@);
                    assert forall|number: usize|
                        selected_among(params@, longer).dom().contains(number) == texts_of(
                            results@,
                        ).dom().contains(number) by {
                        assert(texts_of(results@).dom().contains(number) == results@.dom().contains(
                            number,
                        ));
                        assert(texts_of(before).dom().contains(number) == before.dom().contains(
                            number,
                        ));
                        assert(selected_among(params@, done).dom().contains(number)
                            == before.dom().contains(number));
                    }
                    assert forall|number: usize|
                        texts_of(results@).dom().contains(number) implies texts_of(
                        results@,
                    )[number] == selected_among(params@, longer)[number] by {
                        if number != count {
                            assert(texts_of(before)[number] == selected_among(
                                params@,
                                done,
                            )[number]);
                        }
                    }
                    done = longer;
                }
                rest = tail;
            },
        }
    }
}

/// Searching is a function of the parameters and the text: two results for the
/// same parameters and the same text hold the same lines under the same numbers.
pub proof fn search_is_repeatable<'a>(
    p: ParamsView,
    text: Seq<char>,
    first: Map<usize, &'a str>,
    second: Map<usize, &'a str>,
)
    requires
        texts_of(first) == matches_of(p, text),
        texts_of(second) == matches_of(p, text),
    ensures
        texts_of(first) == texts_of(second),
        first.dom() == second.dom(),
        forall|number: usize| first.dom().contains(number) ==> first[number]@ == second[number]@,
{
    assert(first.dom() =~= texts_of(first).dom());
    assert(second.dom() =~= texts_of(second).dom());
    assert forall|number: usize| first.dom().contains(number) implies first[number]@
        == second[number]@ by {
        assert(texts_of(first)[number] == first[number]@);
        assert(texts_of(second)[number] == second[number]@);
    }
}

} // verus!
