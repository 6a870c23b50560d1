//! Bubble sort.

use super::{exchange, lemma_adjacent_sorted};
use crate::search::sorted_asc;
use crate::symbol_table::KeyT;
use core::cmp::Ordering;
use vstd::prelude::*;

verus! {

/// Every entry from position `m` on is an upper bound for everything at or
/// before it; in particular the entries from `m` on are sorted among
/// themselves and sit in their final places.
spec fn tail_in_place<T: KeyT>(s: Seq<T>, m: int) -> bool {
    forall|i: int, j: int| 0 <= i <= j < s.len() && m <= j ==> #[trigger] s[i].le(#[trigger] s[j])
}

/// Repeatedly sweep the array, swapping adjacent entries that are out of
/// order, until a sweep makes no swap. Each sweep bubbles a maximal
/// remaining entry into its final place, so at most one sweep per entry is
/// ever needed.
pub fn bubble_sort<T: KeyT>(arr: &mut Vec<T>)
    ensures
        sorted_asc(final(arr)@),
        final(arr)@.to_multiset() == old(arr)@.to_multiset(),
{
    let ghost mut pass: int = 0;
    #[verifier::loop_isolation(false)]
    loop
        invariant
            0 <= pass <= arr.len(),
            arr@.to_multiset() == old(arr)@.to_multiset(),
            arr.len() == old(arr).len(),
            tail_in_place(arr@, arr.len() - pass),
        decreases arr.len() + 1 - pass,
    {
        let ghost m = arr.len() - pass - 1;
        let mut sorted = true;
        let mut i: usize = 1;
        proof {
            if pass < arr.len() && m < 1 {
                assert(m == 0);
                T::le_refl(arr@[0]);
            }
        }
        while i < arr.len()
            invariant
                1 <= i,
                i <= arr.len() || arr.len() == 0,
                0 <= pass <= arr.len(),
                m == arr.len() - pass - 1,
                arr@.to_multiset() == old(arr)@.to_multiset(),
                arr.len() == old(arr).len(),
                tail_in_place(arr@, arr.len() - pass),
                forall|k: int| 0 <= k < i - 1 ==> #[trigger] arr@[k].le(arr@[i - 1]),
                sorted ==> forall|k: int| 1 <= k < i ==> #[trigger] arr@[k - 1].le(arr@[k]),
                !sorted ==> pass < arr.len(),
                (pass < arr.len() && i > m) ==> forall|k: int|
                    0 <= k <= m ==> #[trigger] arr@[k].le(arr@[m]),
            decreases arr.len() - i,
        {
            let swap = match arr[i - 1].key_cmp(&arr[i]) {
                Ordering::Greater => true,
                _ => false,
            };
            if swap {
                proof {
                    // a strictly out-of-order pair can only sit below the
                    // settled tail
                    assert(arr@[i as int].le(arr@[i - 1]) && arr@[i as int] != arr@[i - 1]);
                    if arr.len() - pass <= i {
                        assert(arr@[i - 1].le(arr@[i as int]));
                        T::le_antisym(arr@[i - 1], arr@[i as int]);
                    }
                }
                let ghost before = arr@;
                exchange(arr, i - 1, i);
                sorted = false;
                proof {
                    assert forall|p: int, q: int|
                        0 <= p <= q < arr.len() && arr.len() - pass <= q implies #[trigger]
                    arr@[p].le(#[trigger] arr@[q]) by {
                        assert(q > i);
                        assert(arr@[q] == before[q]);
                        if p == i - 1 || p == i {
                            assert(before[i - 1].le(before[q]) && before[i as int].le(before[q]));
                        } else {
                            assert(arr@[p] == before[p]);
                        }
                    }
                    assert forall|k: int| 0 <= k <= i implies #[trigger] arr@[k].le(
                        arr@[i as int],
                    ) by {
                        if k < i - 1 {
                            assert(arr@[k] == before[k] && arr@[i as int] == before[i - 1]);
                            assert(before[k].le(before[i - 1]));
                        } else if k == i {
                            T::le_refl(arr@[k]);
                        } else {
                            assert(arr@[k] == before[i as int]);
                            assert(arr@[i as int] == before[i - 1]);
                        }
                    }
                }
            } else {
                proof {
                    if arr@[i - 1] == arr@[i as int] {
                        T::le_refl(arr@[i - 1]);
                    }
                    assert(arr@[i - 1].le(arr@[i as int]));
                    assert forall|k: int| 0 <= k <= i implies #[trigger] arr@[k].le(
                        arr@[i as int],
                    ) by {
                        if k < i - 1 {
                            T::le_trans(arr@[k], arr@[i - 1], arr@[i as int]);
                        } else if k == i {
                            T::le_refl(arr@[k]);
                        }
                    }
                }
            }
            i = i + 1;
        }
        if sorted {
            proof {
                lemma_adjacent_sorted(arr@);
            }
            break ;
        }
        proof {
            // the sweep left a maximal remaining entry at position m: the
            // settled tail grows by one
            assert forall|p: int, q: int|
                0 <= p <= q < arr.len() && arr.len() - (pass + 1) <= q implies #[trigger]
            arr@[p].le(#[trigger] arr@[q]) by {
                if q == m {
                    assert(arr@[p].le(arr@[m]));
                }
            }
            pass = pass + 1;
        }
    }
}

} // verus!
