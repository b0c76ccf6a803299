//! Sorting of line numbers.

use vstd::prelude::*;
use vstd::seq_lib::{lemma_multiset_commutative, to_multiset_build};

verus! {

broadcast use {vstd::seq_lib::group_to_multiset_ensures, vstd::multiset::group_multiset_axioms};

/// Whether no number is greater than one that comes after it.
pub open spec fn is_sorted(numbers: Seq<usize>) -> bool {
    forall|i: int, j: int| 0 <= i <= j < numbers.len() ==> numbers[i] <= numbers[j]
}

/// Merges two sorted vectors into one.
fn merge(left: &Vec<usize>, right: &Vec<usize>) -> (merged: Vec<usize>)
    requires
        is_sorted(left@),
        is_sorted(right@),
    ensures
        is_sorted(merged@),
        merged@.to_multiset() == left@.to_multiset().add(right@.to_multiset()),
{
    let mut merged: Vec<usize> = Vec::new();
    let mut i: usize = 0;
    let mut j: usize = 0;
    while i < left.len() || j < right.len()
        invariant
            i <= left.len(),
            j <= right.len(),
            is_sorted(left@),
            is_sorted(right@),
            is_sorted(merged@),
            merged@.to_multiset() == left@.take(i as int).to_multiset().add(
                right@.take(j as int).to_multiset(),
            ),
            forall|k: int| 0 <= k < merged.len() && i < left.len() ==> merged[k] <= left[i as int],
            forall|k: int|
                0 <= k < merged.len() && j < right.len() ==> merged[k] <= right[j as int],
        decreases left.len() - i + right.len() - j,
    {
        let ghost before = merged@;
        if j == right.len() || (i < left.len() && left[i] <= right[j]) {
            merged.push(left[i]);
            proof {
                to_multiset_build(before, left[i as int]);
                to_multiset_build(left@.take(i as int), left[i as int]);
                assert(left@.take(i + 1) =~= left@.take(i as int).push(left[i as int]));
            }
            i += 1;
        } else {
            merged.push(right[j]);
            proof {
                to_multiset_build(before, right[j as int]);
                to_multiset_build(right@.take(j as int), right[j as int]);
                assert(right@.take(j + 1) =~= right@.take(j as int).push(right[j as int]));
            }
            j += 1;
        }
        assert(merged@.to_multiset() =~= left@.take(i as int).to_multiset().add(
            right@.take(j as int).to_multiset(),
        ));
    }
    assert(left@.take(i as int) =~= left@);
    assert(right@.take(j as int) =~= right@);
    merged
}

/// Sorts the numbers at the indices from `from` up to, not including, `to`.
fn sort_range(numbers: &Vec<usize>, from: usize, to: usize) -> (sorted: Vec<usize>)
    requires
        from <= to <= numbers.len(),
    ensures
        is_sorted(sorted@),
        sorted@.to_multiset() == numbers@.subrange(from as int, to as int).to_multiset(),
    decreases to - from,
{
    let mut sorted: Vec<usize> = Vec::new();
    if to - from <= 1 {
        if from < to {
            sorted.push(numbers[from]);
        }
        assert(sorted@ =~= numbers@.subrange(from as int, to as int));
        sorted
    } else {
        let middle = from + (to - from) / 2;
        let left = sort_range(numbers, from, middle);
        let right = sort_range(numbers, middle, to);
        proof {
            let low = numbers@.subrange(from as int, middle as int);
            let high = numbers@.subrange(middle as int, to as int);
            assert(low + high =~= numbers@.subrange(from as int, to as int));
            lemma_multiset_commutative(low, high);
        }
        merge(&left, &right)
    }
}

/// Returns the numbers in ascending order: the same numbers, each as often as
/// it was given.
pub fn sort(numbers: &Vec<usize>) -> (sorted: Vec<usize>)
    ensures
        is_sorted(sorted@),
        sorted@.to_multiset() == numbers@.to_multiset(),
{
    assert(numbers@.subrange(0, numbers.len() as int) =~= numbers@);
    sort_range(numbers, 0, numbers.len())
}

} // verus!
