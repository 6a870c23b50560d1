//! Binary search over sorted arrays.

pub mod binary_search;

use crate::symbol_table::{key_lt, KeyT};
use vstd::prelude::*;

verus! {

/// Sorted in ascending order (duplicates allowed).
pub open spec fn sorted_asc<T: KeyT>(s: Seq<T>) -> bool {
    forall|i: int, j: int| 0 <= i <= j < s.len() ==> s[i].le(s[j])
}

/// Sorted in descending order (duplicates allowed).
pub open spec fn sorted_desc<T: KeyT>(s: Seq<T>) -> bool {
    forall|i: int, j: int| 0 <= i <= j < s.len() ==> s[j].le(s[i])
}

/// Searches a sorted array for `target` in O(log n) time: the index of a
/// match if one exists, `None` otherwise.
pub fn binary_search<T: KeyT>(arr: &Vec<T>, target: T) -> (r: Option<usize>)
    requires
        sorted_asc(arr@),
    ensures
        match r {
            Some(i) => i < arr.len() && arr@[i as int] == target,
            None => forall|k: int| 0 <= k < arr.len() ==> arr@[k] != target,
        },
{
    binary_search::binary_search(arr, &target)
}

/// Finds an index at which `target` can be inserted into a sorted array so
/// that the array stays sorted, in O(log n) time; if the target is already
/// present, the index of a present occurrence comes back.
pub fn binary_search_insert_index<T: KeyT>(arr: &Vec<T>, target: T) -> (i: usize)
    requires
        sorted_asc(arr@),
    ensures
        i <= arr.len(),
        forall|k: int| 0 <= k < i ==> arr@[k].le(target),
        forall|k: int| i <= k < arr.len() ==> target.le(arr@[k]),
        (exists|k: int| 0 <= k < arr.len() && arr@[k] == target) ==> i < arr.len() && arr@[i as int]
            == target,
{
    binary_search::binary_search_insert_index(arr, &target)
}

} // verus!
