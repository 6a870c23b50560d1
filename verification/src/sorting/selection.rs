//! Selection sort.

use super::exchange;
use crate::search::sorted_asc;
use crate::symbol_table::KeyT;
use core::cmp::Ordering;
use vstd::prelude::*;

verus! {

/// Repeatedly select the minimum of the not-yet-sorted suffix and swap it
/// onto the end of the sorted prefix.
pub fn selection_sort<T: KeyT>(arr: &mut Vec<T>)
    ensures
        sorted_asc(final(arr)@),
        final(arr)@.to_multiset() == old(arr)@.to_multiset(),
{
    let mut i: usize = 1;
    #[verifier::loop_isolation(false)]
    while i < arr.len()
        invariant
            1 <= i,
            i <= arr.len() || arr.len() <= 1,
            arr.len() == old(arr).len(),
            arr@.to_multiset() == old(arr)@.to_multiset(),
            forall|p: int, q: int| 0 <= p <= q < i - 1 ==> #[trigger] arr@[p].le(arr@[q]),
            forall|p: int, q: int|
                0 <= p < i - 1 <= q < arr.len() ==> #[trigger] arr@[p].le(arr@[q]),
        decreases arr.len() - i,
    {
        let mut min_idx: usize = i - 1;
        let mut j: usize = i;
        proof {
            T::le_refl(arr@[i - 1]);
        }
        while j < arr.len()
            invariant
                i <= j <= arr.len(),
                i - 1 <= min_idx < j,
                forall|k: int| i - 1 <= k < j ==> #[trigger] arr@[min_idx as int].le(arr@[k]),
            decreases arr.len() - j,
        {
            let smaller = match arr[j].key_cmp(&arr[min_idx]) {
                Ordering::Less => true,
                _ => false,
            };
            if smaller {
                proof {
                    assert forall|k: int| i - 1 <= k < j + 1 implies #[trigger] arr@[
                        j as int
                    ].le(arr@[k]) by {
                        if k == j {
                            T::le_refl(arr@[k]);
                        } else {
                            T::le_trans(arr@[j as int], arr@[min_idx as int], arr@[k]);
                        }
                    }
                }
                min_idx = j;
            } else {
                proof {
                    if arr@[j as int] == arr@[min_idx as int] {
                        T::le_refl(arr@[j as int]);
                    }
                    assert(arr@[min_idx as int].le(arr@[j as int]));
                }
            }
            j = j + 1;
        }
        let ghost before = arr@;
        exchange(arr, i - 1, min_idx);
        proof {
            assert forall|p: int, q: int| 0 <= p <= q < i implies #[trigger] arr@[p].le(
                arr@[q],
            ) by {
                if q == i - 1 {
                    if p == q {
                        T::le_refl(arr@[p]);
                    } else {
                        assert(arr@[p] == before[p]);
                        assert(arr@[q] == before[min_idx as int]);
                        assert(before[p].le(before[min_idx as int]));
                    }
                } else {
                    assert(arr@[p] == before[p] && arr@[q] == before[q]);
                }
            }
            assert forall|p: int, q: int| 0 <= p < i <= q < arr.len() implies #[trigger] arr@[
                p
            ].le(arr@[q]) by {
                let vq = if q == min_idx {
                    before[i - 1]
                } else {
                    before[q]
                };
                assert(arr@[q] == vq);
                if p < i - 1 {
                    assert(arr@[p] == before[p]);
                    assert(before[p].le(vq));
                } else {
                    assert(arr@[p] == before[min_idx as int]);
                    if q == min_idx {
                        assert(before[min_idx as int].le(before[i - 1]));
                    } else {
                        assert(before[min_idx as int].le(before[q]));
                    }
                }
            }
        }
        i = i + 1;
    }
    proof {
        assert forall|p: int, q: int| 0 <= p <= q < arr.len() implies arr@[p].le(arr@[q]) by {
            if arr.len() > 1 {
                if q < i - 1 {
                    assert(arr@[p].le(arr@[q]));
                } else if p < i - 1 {
                    assert(arr@[p].le(arr@[q]));
                } else {
                    T::le_refl(arr@[p]);
                }
            } else {
                T::le_refl(arr@[p]);
            }
        }
    }
}

} // verus!
