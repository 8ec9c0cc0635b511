//! Lists of numbers of a fixed length, and numbers in ascending order, as
//! `itertools` gives them.

use itertools::Itertools;
use vstd::prelude::*;

verus! {

/// Whether the numbers stand in ascending order, equal ones allowed.
pub open spec fn ascending(numbers: Seq<i64>) -> bool {
    forall|i: int, j: int| 0 <= i < j < numbers.len() ==> numbers[i] <= numbers[j]
}

/// `Itertools::collect_tuple` on the numbers of a list, for a tuple of two.
/// Trusted: the tuple holds the two numbers in their order if the list
/// has exactly two, and there is none otherwise.
#[verifier::external_body]
pub(crate) fn collect_pair(numbers: Vec<i64>) -> (pair: Option<(i64, i64)>)
    ensures
        numbers@.len() == 2 ==> pair == Some((numbers@[0], numbers@[1])),
        numbers@.len() != 2 ==> pair is None,
{
    numbers.into_iter().collect_tuple()
}

/// `Itertools::collect_tuple` on the numbers of a list, for a tuple of
/// three. Trusted: the tuple holds the three numbers in their order if the
/// list has exactly three, and there is none otherwise.
#[verifier::external_body]
pub(crate) fn collect_triple(numbers: Vec<i64>) -> (triple: Option<(i64, i64, i64)>)
    ensures
        numbers@.len() == 3 ==> triple == Some((numbers@[0], numbers@[1], numbers@[2])),
        numbers@.len() != 3 ==> triple is None,
{
    numbers.into_iter().collect_tuple()
}

/// `Itertools::sorted` on the numbers of a list. Trusted: the result holds
/// the same numbers, each as often as the list does, in ascending order.
#[verifier::external_body]
pub(crate) fn sorted(numbers: Vec<i64>) -> (ordered: Vec<i64>)
    ensures
        ascending(ordered@),
        ordered@.to_multiset() == numbers@.to_multiset(),
{
    numbers.into_iter().sorted().collect()
}

} // verus!
