//! Binary search over ascending or descending sorted arrays.

use super::{sorted_asc, sorted_desc};
use crate::symbol_table::{key_lt, KeyT};
use core::cmp::Ordering;
use vstd::prelude::*;

verus! {

/// Searches a sorted array for the index of `target` in O(log n) time. If
/// a match is found, `Some(index_of_match)` is returned, else `None`.
pub fn binary_search<T: KeyT>(arr: &Vec<T>, target: &T) -> (r: Option<usize>)
    requires
        sorted_asc(arr@),
    ensures
        match r {
            Some(i) => i < arr.len() && arr@[i as int] == *target,
            None => forall|k: int| 0 <= k < arr.len() ==> arr@[k] != *target,
        },
{
    match search(arr, target, false) {
        Ok(i) => Some(i),
        Err(_) => None,
    }
}

/// Same as `binary_search`, but for reverse ordered (descending) arrays.
pub fn binary_search_rev<T: KeyT>(arr: &Vec<T>, target: &T) -> (r: Option<usize>)
    requires
        sorted_desc(arr@),
    ensures
        match r {
            Some(i) => i < arr.len() && arr@[i as int] == *target,
            None => forall|k: int| 0 <= k < arr.len() ==> arr@[k] != *target,
        },
{
    match search(arr, target, true) {
        Ok(i) => Some(i),
        Err(_) => None,
    }
}

/// Finds an index at which `target` can be inserted into a sorted array
/// so that it stays sorted, in O(log n) time. If the target is already in
/// the array, the index of one of its occurrences comes back (no
/// guarantee which, when there are duplicates).
pub fn binary_search_insert_index<T: KeyT>(arr: &Vec<T>, target: &T) -> (i: usize)
    requires
        sorted_asc(arr@),
    ensures
        i <= arr.len(),
        forall|k: int| 0 <= k < i ==> arr@[k].le(*target),
        forall|k: int| i <= k < arr.len() ==> target.le(arr@[k]),
        (exists|k: int| 0 <= k < arr.len() && arr@[k] == *target) ==> i < arr.len() && arr@[
            i as int
        ] == *target,
{
    match search(arr, target, false) {
        Ok(i) => {
            proof {
                assert forall|k: int| 0 <= k < i implies arr@[k].le(*target) by {}
            }
            i
        },
        Err(i) => i,
    }
}

/// Same as `binary_search_insert_index`, but for reverse ordered
/// (descending) arrays.
pub fn binary_search_insert_index_rev<T: KeyT>(arr: &Vec<T>, target: &T) -> (i: usize)
    requires
        sorted_desc(arr@),
    ensures
        i <= arr.len(),
        forall|k: int| 0 <= k < i ==> target.le(arr@[k]),
        forall|k: int| i <= k < arr.len() ==> arr@[k].le(*target),
        (exists|k: int| 0 <= k < arr.len() && arr@[k] == *target) ==> i < arr.len() && arr@[
            i as int
        ] == *target,
{
    match search(arr, target, true) {
        Ok(i) => i,
        Err(i) => i,
    }
}

/// The shared bracketing loop: halve the candidate range until a match or
/// until it empties; `Err` carries the insertion point, with everything
/// before it strictly on the target's small side and everything from it on
/// strictly on the large side.
fn search<T: KeyT>(arr: &Vec<T>, target: &T, rev: bool) -> (r: Result<usize, usize>)
    requires
        !rev ==> sorted_asc(arr@),
        rev ==> sorted_desc(arr@),
    ensures
        match r {
            Ok(m) => m < arr.len() && arr@[m as int] == *target,
            Err(i) => i <= arr.len() && (forall|k: int|
                0 <= k < i ==> if rev {
                    key_lt(*target, arr@[k])
                } else {
                    key_lt(arr@[k], *target)
                }) && (forall|k: int|
                i <= k < arr.len() ==> if rev {
                    key_lt(arr@[k], *target)
                } else {
                    key_lt(*target, arr@[k])
                }),
        },
{
    if arr.len() == 0 {
        return Err(0);
    }

    let mut i: usize = 0;
    let mut j: usize = arr.len() - 1;
    while i <= j
        invariant
            !rev ==> sorted_asc(arr@),
            rev ==> sorted_desc(arr@),
            j < arr.len(),
            i <= arr.len(),
            forall|k: int|
                0 <= k < i ==> if rev {
                    key_lt(*target, arr@[k])
                } else {
                    key_lt(arr@[k], *target)
                },
            forall|k: int|
                j < k < arr.len() ==> if rev {
                    key_lt(arr@[k], *target)
                } else {
                    key_lt(*target, arr@[k])
                },
        decreases j + 1 - i,
    {
        let m = i + (j - i) / 2;
        let ord = arr[m].key_cmp(target);
        let go_left = match ord {
            Ordering::Equal => {
                return Ok(m);
            },
            Ordering::Greater => !rev,
            Ordering::Less => rev,
        };
        if go_left {
            proof {
                assert forall|k: int| m <= k < arr.len() implies if rev {
                    key_lt(arr@[k], *target)
                } else {
                    key_lt(*target, arr@[k])
                } by {
                    if k > m {
                        if rev {
                            T::le_trans(arr@[k], arr@[m as int], *target);
                            if arr@[k] == *target {
                                T::le_antisym(arr@[m as int], *target);
                            }
                        } else {
                            T::le_trans(*target, arr@[m as int], arr@[k]);
                            if arr@[k] == *target {
                                T::le_antisym(*target, arr@[m as int]);
                            }
                        }
                    }
                }
            }
            if m == 0 {
                return Err(0);
            }
            j = m - 1;
        } else {
            proof {
                assert forall|k: int| 0 <= k <= m implies if rev {
                    key_lt(*target, arr@[k])
                } else {
                    key_lt(arr@[k], *target)
                } by {
                    if k < m {
                        if rev {
                            T::le_trans(*target, arr@[m as int], arr@[k]);
                            if arr@[k] == *target {
                                T::le_antisym(*target, arr@[m as int]);
                            }
                        } else {
                            T::le_trans(arr@[k], arr@[m as int], *target);
                            if arr@[k] == *target {
                                T::le_antisym(arr@[m as int], *target);
                            }
                        }
                    }
                }
            }
            i = m + 1;
        }
    }
    Err(i)
}

} // verus!
