//! Binary searches in ordered arrays.
//!
//! The searches compare elements with `<`, `>` and `==` of the element type.
//! They never read outside the array, whatever those operators answer. What
//! the result means is stated for element types whose operators follow their
//! specification, and for arrays that are ordered as far as the item searched
//! for can tell: the elements below it come first, the elements above it
//! last. A sorted array of integers is ordered in this way.

use vstd::prelude::*;
use vstd::std_specs::cmp::{PartialEqSpec, PartialOrdSpec};
use core::cmp::Ordering;

verus! {

/// `true` when the comparison operators of `T` answer as specified.
pub open spec fn lawful<T: PartialOrd>() -> bool {
    T::obeys_partial_cmp_spec() && T::obeys_eq_spec()
}

/// `x < y`.
pub open spec fn less<T: PartialOrd>(x: T, y: T) -> bool {
    x.partial_cmp_spec(&y) == Some(Ordering::Less)
}

/// `x > y`.
pub open spec fn greater<T: PartialOrd>(x: T, y: T) -> bool {
    x.partial_cmp_spec(&y) == Some(Ordering::Greater)
}

/// `x == y`.
pub open spec fn same<T: PartialOrd>(x: T, y: T) -> bool {
    x.eq_spec(&y)
}

/// The elements below `item` come before all others.
pub open spec fn below_first<T: PartialOrd>(array: Seq<T>, item: T) -> bool {
    forall|i: int, j: int|
        0 <= i < j < array.len() && less(#[trigger] array[j], item) ==> less(
            #[trigger] array[i],
            item,
        )
}

/// The elements below `item` come after all others.
pub open spec fn below_last<T: PartialOrd>(array: Seq<T>, item: T) -> bool {
    forall|i: int, j: int|
        0 <= i < j < array.len() && less(#[trigger] array[i], item) ==> less(
            #[trigger] array[j],
            item,
        )
}

/// The elements that `item` exceeds come before all others.
pub open spec fn exceeded_first<T: PartialOrd>(array: Seq<T>, item: T) -> bool {
    forall|i: int, j: int|
        0 <= i < j < array.len() && greater(item, #[trigger] array[j]) ==> greater(
            item,
            #[trigger] array[i],
        )
}

/// The elements above `item` come after all others, the elements equal to it
/// directly before them, and no element is both.
pub open spec fn ordered_around<T: PartialOrd>(array: Seq<T>, item: T) -> bool {
    &&& forall|i: int, j: int|
        0 <= i < j < array.len() && greater(#[trigger] array[i], item) ==> greater(
            #[trigger] array[j],
            item,
        )
    &&& forall|i: int, j: int|
        0 <= i < j < array.len() && same(#[trigger] array[i], item) ==> same(
            #[trigger] array[j],
            item,
        ) || greater(array[j], item)
    &&& forall|i: int| 0 <= i < array.len() && same(#[trigger] array[i], item) ==> !greater(
            array[i], item)
}

/// The element of `array` at position `i`.
pub open spec fn at<T>(array: Seq<T>, i: usize) -> T {
    array[i as int]
}

/// Looks for `item` in a non-empty array and returns the position of its last
/// occurrence, or `Err` when it does not occur.
pub fn binary_search<T: PartialOrd>(sorted_array: &Vec<T>, item: T) -> (found: Result<usize, ()>)
    requires
        sorted_array@.len() > 0,
    ensures
        found is Ok ==> found->Ok_0 < sorted_array@.len(),
        lawful::<T>() && found is Ok ==> same(at(sorted_array@, found->Ok_0), item),
        lawful::<T>() && ordered_around(sorted_array@, item) && found is Ok ==> forall|j: int|
            found->Ok_0 < j < sorted_array@.len() ==> greater(#[trigger] sorted_array@[j], item),
        lawful::<T>() && ordered_around(sorted_array@, item) && found is Err ==> forall|j: int|
            0 <= j < sorted_array@.len() ==> !same(#[trigger] sorted_array@[j], item),
{
    let mut left: usize = 0;
    let mut right: usize = sorted_array.len() - 1;
    while left != right
        invariant
            left <= right < sorted_array@.len() <= usize::MAX,
            lawful::<T>() && ordered_around(sorted_array@, item) ==> forall|j: int|
                right < j < sorted_array@.len() ==> greater(#[trigger] sorted_array@[j], item),
            lawful::<T>() ==> left == 0 || !greater(at(sorted_array@, left), item),
        decreases right - left,
    {
        let midpoint: usize = left + (right - left + 1) / 2;
        if sorted_array[midpoint] > item {
            right = midpoint - 1;
        } else {
            left = midpoint;
        }
    }
    if sorted_array[left] == item {
        return Ok(left);
    }
    proof {
        if lawful::<T>() && ordered_around(sorted_array@, item) {
            assert forall|j: int| 0 <= j < sorted_array@.len() implies !same(
                #[trigger] sorted_array@[j],
                item,
            ) by {
                if j < left && same(sorted_array@[j], item) {
                    assert(same(at(sorted_array@, left), item) || greater(
                        at(sorted_array@, left),
                        item,
                    ));
                }
                if j > left && same(sorted_array@[j], item) {
                    assert(greater(sorted_array@[j], item));
                }
            }
        }
    }
    Err(())
}

/// Counts the elements to the left of `item`: returns the position before
/// which every element is below `item` and from which on none is.
pub fn binary_search_leftmost<T: PartialOrd>(sorted_array: &Vec<T>, item: T) -> (count: usize)
    ensures
        count <= sorted_array@.len(),
        lawful::<T>() && below_first(sorted_array@, item) ==> forall|i: int|
            0 <= i < sorted_array@.len() ==> (less(#[trigger] sorted_array@[i], item) <==> i
                < count),
{
    let mut left: usize = 0;
    let mut right: usize = sorted_array.len();
    while left < right
        invariant
            left <= right <= sorted_array@.len(),
            lawful::<T>() && below_first(sorted_array@, item) ==> forall|i: int|
                0 <= i < left ==> less(#[trigger] sorted_array@[i], item),
            lawful::<T>() && below_first(sorted_array@, item) ==> forall|i: int|
                right <= i < sorted_array@.len() ==> !less(#[trigger] sorted_array@[i], item),
        decreases right - left,
    {
        let midpoint: usize = left + (right - left) / 2;
        if sorted_array[midpoint] < item {
            left = midpoint + 1;
        } else {
            right = midpoint;
        }
    }
    left
}

/// In an array whose elements below `item` come last, returns the position of
/// the last element that is not below `item`. There must be one: the first
/// element is not below `item`.
pub fn binary_search_rightmost<T: PartialOrd>(sorted_array: &Vec<T>, item: T) -> (last: usize)
    requires
        sorted_array@.len() > 0,
        lawful::<T>(),
        !less(sorted_array@[0], item),
    ensures
        last < sorted_array@.len(),
        below_last(sorted_array@, item) ==> forall|i: int|
            0 <= i < sorted_array@.len() ==> (less(#[trigger] sorted_array@[i], item) <==> i
                > last),
{
    let mut left: usize = 0;
    let mut right: usize = sorted_array.len();
    while left < right
        invariant
            left <= right <= sorted_array@.len(),
            right >= 1,
            lawful::<T>(),
            !less(sorted_array@[0], item),
            below_last(sorted_array@, item) ==> forall|i: int|
                0 <= i < left ==> !less(#[trigger] sorted_array@[i], item),
            below_last(sorted_array@, item) ==> forall|i: int|
                right <= i < sorted_array@.len() ==> less(#[trigger] sorted_array@[i], item),
        decreases right - left,
    {
        let midpoint: usize = left + (right - left) / 2;
        if sorted_array[midpoint] < item {
            right = midpoint;
        } else {
            left = midpoint + 1;
        }
    }
    right - 1
}

/// Finds the bin of `item` in an array of bin edges: the position of an edge
/// such that `item` exceeds it, unless it is the first, and does not exceed
/// the next. The item must lie between the first and the last edge.
pub fn binary_search_bin<T: PartialOrd>(sorted_array: &Vec<T>, item: T) -> (bin: usize)
    requires
        sorted_array@.len() > 0,
        lawful::<T>(),
        !less(item, sorted_array@[0]),
        !greater(item, sorted_array@[sorted_array@.len() - 1]),
    ensures
        bin < sorted_array@.len(),
        sorted_array@.len() >= 2 ==> bin + 1 < sorted_array@.len(),
        bin == 0 || greater(item, at(sorted_array@, bin)),
        sorted_array@.len() >= 2 ==> !greater(item, sorted_array@[bin + 1]),
        exceeded_first(sorted_array@, item) ==> forall|i: int|
            0 < i < sorted_array@.len() ==> (greater(item, #[trigger] sorted_array@[i]) <==> i
                <= bin),
{
    let mut left: usize = 0;
    let mut right: usize = sorted_array.len() - 1;
    while right - left > 1
        invariant
            left <= right < sorted_array@.len(),
            sorted_array@.len() >= 2 ==> left < right,
            lawful::<T>(),
            left == 0 || greater(item, at(sorted_array@, left)),
            !greater(item, at(sorted_array@, right)),
        decreases right - left,
    {
        let midpoint: usize = left + (right - left) / 2;
        if item > sorted_array[midpoint] {
            left = midpoint;
        } else {
            right = midpoint;
        }
    }
    left
}

/// An ascending array of integers is ordered as the searches expect, for
/// every item.
pub proof fn lemma_ascending_is_ordered(array: Seq<u64>, item: u64)
    requires
        forall|i: int, j: int| 0 <= i < j < array.len() ==> array[i] <= array[j],
    ensures
        lawful::<u64>(),
        below_first(array, item),
        exceeded_first(array, item),
        ordered_around(array, item),
        forall|i: int| 0 <= i < array.len() ==> less(#[trigger] array[i], item) == (array[i] < item),
        forall|i: int|
            0 <= i < array.len() ==> greater(#[trigger] array[i], item) == (array[i] > item),
        forall|i: int| 0 <= i < array.len() ==> same(#[trigger] array[i], item) == (array[i] == item),
{
}

} // verus!
