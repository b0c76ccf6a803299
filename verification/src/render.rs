//! The output: the selected lines in the order of their numbers, one text each.

use crate::lines::lines_of;
use crate::params::{Params, ParamsView};
use crate::search::{is_selected, search, selected_among, texts_of};
use crate::sorting::sort;
use std::collections::HashMap;
use vstd::prelude::*;
use vstd::std_specs::hash::spec_keys_iter;
use vstd::std_specs::iter::IteratorSpec;
use vstd::string::StringExecFns;

verus! {

broadcast use {vstd::seq_lib::group_to_multiset_ensures, vstd::multiset::group_multiset_axioms};

/// The character of a decimal digit.
pub open spec fn digit(value: nat) -> char {
    seq!['0', '1', '2', '3', '4', '5', '6', '7', '8', '9'][value as int]
}

/// A number written in decimal, without sign or leading zeros.
pub open spec fn decimal(number: nat) -> Seq<char>
    decreases number,
{
    if number < 10 {
        seq![digit(number)]
    } else {
        decimal(number / 10).push(digit(number % 10))
    }
}

/// A selected line as it is shown: behind its number, a colon and a space where
/// numbers are shown, and bare where they are not.
pub open spec fn rendered(show_line_numbers: bool, number: usize, line: Seq<char>) -> Seq<char> {
    if show_line_numbers {
        decimal(number as nat) + seq![':', ' '] + line
    } else {
        line
    }
}

/// Whether each number is less than the one after it.
pub open spec fn is_ascending(numbers: Seq<usize>) -> bool {
    forall|i: int, j: int| 0 <= i < j < numbers.len() ==> numbers[i] < numbers[j]
}

/// Whether `listing` holds exactly the numbers of `numbers`, in ascending order.
pub open spec fn lists_ascending(listing: Seq<usize>, numbers: Set<usize>) -> bool {
    is_ascending(listing) && listing.to_set() == numbers
}

/// The numbers of a finite set in ascending order.
pub open spec fn ascending(numbers: Set<usize>) -> Seq<usize> {
    choose|listing: Seq<usize>| lists_ascending(listing, numbers)
}

/// What is shown for a result: its lines in the order of their numbers, each as
/// [`rendered`] says.
pub open spec fn rendering(show_line_numbers: bool, found: Map<usize, Seq<char>>) -> Seq<
    Seq<char>,
> {
    let order = ascending(found.dom());
    Seq::new(order.len(), |i: int| rendered(show_line_numbers, order[i], found[order[i]]))
}

/// What is shown for the lines of a text: the selected lines, in the order in
/// which they stand, each as [`rendered`] says with its 1-based number.
pub open spec fn shown(p: ParamsView, lines: Seq<Seq<char>>) -> Seq<Seq<char>>
    decreases lines.len(),
{
    if lines.len() == 0 {
        Seq::empty()
    } else {
        let earlier = shown(p, lines.drop_last());
        if is_selected(p, lines.last()) {
            earlier.push(rendered(p.show_line_numbers, lines.len() as usize, lines.last()))
        } else {
            earlier
        }
    }
}

/// The numbers of the selected lines, in the order in which the lines stand.
spec fn selected_numbers(p: ParamsView, lines: Seq<Seq<char>>) -> Seq<usize>
    decreases lines.len(),
{
    if lines.len() == 0 {
        Seq::empty()
    } else {
        let earlier = selected_numbers(p, lines.drop_last());
        if is_selected(p, lines.last()) {
            earlier.push(lines.len() as usize)
        } else {
            earlier
        }
    }
}

/// [`selected_numbers`] lists the numbers of the selected lines in ascending
/// order, and [`shown`] holds the line of each, rendered.
proof fn lemma_selected_numbers(p: ParamsView, lines: Seq<Seq<char>>)
    requires
        lines.len() <= usize::MAX,
    ensures
        lists_ascending(selected_numbers(p, lines), selected_among(p, lines).dom()),
        forall|i: int|
            0 <= i < selected_numbers(p, lines).len() ==> 1 <= #[trigger] selected_numbers(
                p,
                lines,
            )[i] <= lines.len(),
        shown(p, lines).len() == selected_numbers(p, lines).len(),
        forall|i: int|
            0 <= i < selected_numbers(p, lines).len() ==> #[trigger] shown(p, lines)[i] == rendered(
                p.show_line_numbers,
                selected_numbers(p, lines)[i],
                lines[selected_numbers(p, lines)[i] - 1],
            ),
    decreases lines.len(),
{
    let numbers = selected_numbers(p, lines);
    let found = selected_among(p, lines).dom();
    if lines.len() == 0 {
        assert(numbers.to_set() =~= found);
    } else {
        let front = lines.drop_last();
        let earlier = selected_numbers(p, front);
        lemma_selected_numbers(p, front);
        assert forall|n: usize| numbers.to_set().contains(n) == found.contains(n) by {
            assert(selected_among(p, front).dom().contains(n) == earlier.to_set().contains(n));
            if 1 <= n < lines.len() {
                assert(front[n - 1] == lines[n - 1]);
            }
            if numbers.contains(n) {
                let k = choose|k: int| 0 <= k < numbers.len() && numbers[k] == n;
                if k < earlier.len() {
                    assert(earlier[k] == n);
                    assert(earlier.contains(n));
                }
            }
            if earlier.contains(n) {
                let k = choose|k: int| 0 <= k < earlier.len() && earlier[k] == n;
                assert(numbers[k] == n);
            }
            if n == lines.len() && is_selected(p, lines.last()) {
                assert(numbers[numbers.len() - 1] == n);
            }
        }
        assert(numbers.to_set() =~= found);
        assert forall|i: int| 0 <= i < numbers.len() implies #[trigger] shown(p, lines)[i]
            == rendered(p.show_line_numbers, numbers[i], lines[numbers[i] - 1]) by {
            if i < earlier.len() {
                assert(shown(p, front)[i] == rendered(
                    p.show_line_numbers,
                    earlier[i],
                    front[earlier[i] - 1],
                ));
                assert(front[earlier[i] - 1] == lines[earlier[i] - 1]);
            }
        }
    }
}

/// Sorting by line number gives the order of the text: what is shown for the
/// selected lines of a text, taken from the map under their numbers, is the
/// selected lines in the order in which they stand in the text.
pub proof fn rendering_follows_the_text(p: ParamsView, lines: Seq<Seq<char>>)
    requires
        lines.len() <= usize::MAX,
    ensures
        rendering(p.show_line_numbers, selected_among(p, lines)) == shown(p, lines),
{
    lemma_selected_numbers(p, lines);
    lemma_ascending_is(selected_numbers(p, lines), selected_among(p, lines).dom());
}

/// A set has at most one ascending listing.
pub proof fn lemma_ascending_listing_unique(first: Seq<usize>, second: Seq<usize>)
    requires
        is_ascending(first),
        is_ascending(second),
        first.to_set() == second.to_set(),
    ensures
        first == second,
    decreases first.len(),
{
    if first.len() == 0 {
        if second.len() > 0 {
            assert(second.to_set().contains(second[0]));
            assert(first.contains(second[0]));
        }
        assert(first =~= second);
    } else {
        let top = first.last();
        assert(first.to_set().contains(top));
        assert(second.contains(top));
        let at = choose|at: int| 0 <= at < second.len() && second[at] == top;
        assert(at == second.len() - 1) by {
            if at < second.len() - 1 {
                let above = second.last();
                assert(second.to_set().contains(above));
                assert(first.contains(above));
                let k = choose|k: int| 0 <= k < first.len() && first[k] == above;
                assert(first[k] <= top);
            }
        }
        let a = first.drop_last();
        let b = second.drop_last();
        assert forall|x: usize| a.to_set().contains(x) == b.to_set().contains(x) by {
            if a.contains(x) {
                let k = choose|k: int| 0 <= k < a.len() && a[k] == x;
                assert(first[k] == x);
                assert(first.to_set().contains(x));
                assert(second.contains(x));
                let m = choose|m: int| 0 <= m < second.len() && second[m] == x;
                assert(m < second.len() - 1);
                assert(b[m] == x);
            }
            if b.contains(x) {
                let k = choose|k: int| 0 <= k < b.len() && b[k] == x;
                assert(second[k] == x);
                assert(second.to_set().contains(x));
                assert(first.contains(x));
                let m = choose|m: int| 0 <= m < first.len() && first[m] == x;
                assert(m < first.len() - 1);
                assert(a[m] == x);
            }
        }
        assert(a.to_set() =~= b.to_set());
        lemma_ascending_listing_unique(a, b);
        assert(first =~= a.push(top));
        assert(second =~= b.push(top));
    }
}

/// An ascending listing of a set is the listing that [`ascending`] names.
pub proof fn lemma_ascending_is(listing: Seq<usize>, numbers: Set<usize>)
    requires
        lists_ascending(listing, numbers),
    ensures
        ascending(numbers) == listing,
{
    lemma_ascending_listing_unique(ascending(numbers), listing);
}

/// The text of one decimal digit.
fn digit_text(value: usize) -> (text: &'static str)
    requires
        value < 10,
    ensures
        text@ == seq![digit(value as nat)],
{
    proof {
        reveal_strlit("0");
        reveal_strlit("1");
        reveal_strlit("2");
        reveal_strlit("3");
        reveal_strlit("4");
        reveal_strlit("5");
        reveal_strlit("6");
        reveal_strlit("7");
        reveal_strlit("8");
        reveal_strlit("9");
    }
    let text = if value == 0 {
        "0"
    } else if value == 1 {
        "1"
    } else if value == 2 {
        "2"
    } else if value == 3 {
        "3"
    } else if value == 4 {
        "4"
    } else if value == 5 {
        "5"
    } else if value == 6 {
        "6"
    } else if value == 7 {
        "7"
    } else if value == 8 {
        "8"
    } else {
        "9"
    };
    text
}

/// Appends a number, written in decimal, to a text.
fn append_decimal(text: &mut String, number: usize)
    ensures
        final(text)@ == old(text)@ + decimal(number as nat),
    decreases number,
{
    if number >= 10 {
        append_decimal(text, number / 10);
    }
    text.append(digit_text(number % 10));
}

/// Renders one selected line.
pub fn render_line(show_line_numbers: bool, number: usize, line: &str) -> (text: String)
    ensures
        text@ == rendered(show_line_numbers, number, line@),
{
    let mut text = String::new();
    if show_line_numbers {
        append_decimal(&mut text, number);
        proof {
            reveal_strlit(": ");
        }
        text.append(": ");
    }
    text.append(line);
    text
}

/// Collects the line numbers of a result, in the order in which the map hands them out.
fn line_numbers<'a>(results: &HashMap<usize, &'a str>) -> (numbers: Vec<usize>)
    ensures
        numbers@.no_duplicates(),
        numbers@.to_set() == results@.dom(),
{
    let mut numbers: Vec<usize> = Vec::new();
    for number in keys: results.keys()
        invariant
            keys.seq() == spec_keys_iter(results).remaining(),
            numbers@ == keys.seq().unref().take(keys.index()),
    {
        numbers.push(*number);
    }
    assert(numbers@ =~= spec_keys_iter(results).remaining().unref());
    numbers
}

/// The line numbers of a result in ascending order.
pub fn sorted_numbers<'a>(results: &HashMap<usize, &'a str>) -> (numbers: Vec<usize>)
    ensures
        numbers@ == ascending(results@.dom()),
        lists_ascending(numbers@, results@.dom()),
        numbers.len() == results@.dom().len(),
{
    let unordered = line_numbers(results);
    let numbers = sort(&unordered);
    proof {
        unordered@.lemma_multiset_has_no_duplicates();
        numbers@.lemma_multiset_has_no_duplicates_conv();
        numbers@.unique_seq_to_set();
        assert forall|i: int, j: int| 0 <= i < j < numbers@.len() implies numbers@[i]
            < numbers@[j] by {
            assert(numbers@[i] <= numbers@[j]);
            assert(numbers@[i] != numbers@[j]);
        }
        assert forall|x: usize| numbers@.to_set().contains(x) == unordered@.to_set().contains(
            x,
        ) by {
            assert(numbers@.contains(x) == (numbers@.to_multiset().count(x) > 0));
            assert(unordered@.contains(x) == (unordered@.to_multiset().count(x) > 0));
        }
        assert(numbers@.to_set() =~= results@.dom());
        lemma_ascending_is(numbers@, results@.dom());
    }
    numbers
}

/// Renders a result: one text for each selected line, in the order of the line
/// numbers, each with its number in front where the parameters ask for it.
pub fn render<'a>(params: &Params, results: &HashMap<usize, &'a str>) -> (output: Vec<String>)
    ensures
        output.deep_view() == rendering(params@.show_line_numbers, texts_of(results@)),
        output.len() == results@.dom().len(),
{
    let numbers = sorted_numbers(results);
    let show = params.shows_line_numbers();
    let ghost found = texts_of(results@);
    assert(found.dom() =~= results@.dom());
    let mut output: Vec<String> = Vec::new();
    let mut i: usize = 0;
    while i < numbers.len()
        invariant
            i <= numbers.len(),
            show == params@.show_line_numbers,
            found == texts_of(results@),
            numbers@ == ascending(found.dom()),
            found.dom() == results@.dom(),
            lists_ascending(numbers@, results@.dom()),
            output.len() == i,
            forall|k: int|
                0 <= k < i ==> (#[trigger] output[k])@ == rendered(
                    show,
                    numbers[k],
                    found[numbers[k]],
                ),
        decreases numbers.len() - i,
    {
        let number = numbers[i];
        match results.get(&number) {
            Some(line) => {
                output.push(render_line(show, number, line));
            },
            None => {
                assert(false);
            },
        }
        i += 1;
    }
    output
}

/// Searches the text of a file and renders what was found: the selected lines in
/// the order in which they stand in the file.
pub fn report(params: &Params, file: &str) -> (output: Vec<String>)
    ensures
        output.deep_view() == shown(params@, lines_of(file@)),
{
    let results = search(params, file);
    proof {
        rendering_follows_the_text(params@, lines_of(file@));
    }
    render(params, &results)
}

} // verus!
