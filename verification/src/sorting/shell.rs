//! Shell sort.

use super::exchange;
use crate::search::sorted_asc;
use crate::symbol_table::KeyT;
use core::cmp::Ordering;
use vstd::prelude::*;

verus! {

/// The gap sequence 1, 4, 13, 40, 121, ... where each gap is three times
/// the previous one plus one.
pub open spec fn gap_seq(k: nat) -> nat
    decreases k,
{
    if k == 0 {
        1
    } else {
        3 * gap_seq((k - 1) as nat) + 1
    }
}

/// Whether `h` is one of the gaps.
pub open spec fn is_gap(h: nat) -> bool {
    exists|k: nat| h == gap_seq(k)
}

/// Sort by h-sorting the array for each gap of the sequence, from the
/// largest gap below the array length down to 1. The final pass with gap
/// 1 is an insertion sort over an already largely ordered array.
pub fn shell_sort<T: KeyT>(arr: &mut Vec<T>)
    ensures
        sorted_asc(final(arr)@),
        final(arr)@.to_multiset() == old(arr)@.to_multiset(),
{
    let mut h = calc_max_h(arr.len());
    proof {
        if h == 0 {
            assert forall|i: int, j: int| 0 <= i <= j < arr.len() implies arr@[i].le(
                arr@[j],
            ) by {
                T::le_refl(arr@[i]);
            }
        }
    }
    #[verifier::loop_isolation(false)]
    while h > 0
        invariant
            arr.len() == old(arr).len(),
            arr@.to_multiset() == old(arr)@.to_multiset(),
            h == 0 || is_gap(h as nat),
            h == 0 ==> sorted_asc(arr@),
        decreases h,
    {
        h_sort(arr, h);
        proof {
            let k = choose|k: nat| h as nat == gap_seq(k);
            if k == 0 {
                assert(h == 1);
            } else {
                assert(h as nat == 3 * gap_seq((k - 1) as nat) + 1);
                assert((h / 3) as nat == gap_seq((k - 1) as nat));
            }
        }
        h = h / 3;
    }
    proof {
        if arr.len() < 2 {
            assert forall|i: int, j: int| 0 <= i <= j < arr.len() implies arr@[i].le(
                arr@[j],
            ) by {
                T::le_refl(arr@[i]);
            }
        }
    }
}

/// One pass of insertion sort with stride `h`: every entry is moved back
/// by steps of `h` until its predecessor at distance `h` is no larger.
/// With `h == 1` this sorts the array outright.
pub(crate) fn h_sort<T: KeyT>(arr: &mut Vec<T>, h: usize)
    requires
        h >= 1,
    ensures
        final(arr).len() == old(arr).len(),
        final(arr)@.to_multiset() == old(arr)@.to_multiset(),
        h == 1 ==> sorted_asc(final(arr)@),
{
    let mut i = h;
    proof {
        if h == 1 && arr.len() > 0 {
            T::le_refl(arr@[0]);
        }
    }
    #[verifier::loop_isolation(false)]
    while i < arr.len()
        invariant
            h <= i,
            arr.len() == old(arr).len(),
            arr@.to_multiset() == old(arr)@.to_multiset(),
            h == 1 ==> forall|p: int, q: int|
                0 <= p <= q < i && q < arr.len() ==> #[trigger] arr@[p].le(arr@[q]),
        decreases arr.len() - i,
    {
        let mut j = i;
        loop
            invariant
                j <= i < arr.len(),
                h >= 1,
                arr.len() == old(arr).len(),
                arr@.to_multiset() == old(arr)@.to_multiset(),
                h == 1 ==> forall|p: int, q: int|
                    0 <= p <= q <= i && q != j ==> #[trigger] arr@[p].le(arr@[q]),
                h == 1 ==> forall|q: int| j < q <= i ==> #[trigger] arr@[j as int].le(arr@[q]),
            ensures
                arr.len() == old(arr).len(),
                arr@.to_multiset() == old(arr)@.to_multiset(),
                h == 1 ==> forall|p: int, q: int| 0 <= p <= q <= i ==> #[trigger] arr@[p].le(
                    arr@[q],
                ),
            decreases j,
        {
            if j < h {
                proof {
                    if h == 1 {
                        assert forall|p: int, q: int| 0 <= p <= q <= i implies #[trigger] arr@[
                            p
                        ].le(arr@[q]) by {
                            if q == j {
                                T::le_refl(arr@[p]);
                            }
                        }
                    }
                }
                break ;
            }
            let out_of_place = match arr[j].key_cmp(&arr[j - h]) {
                Ordering::Less => true,
                _ => false,
            };
            if !out_of_place {
                proof {
                    if h == 1 {
                        if arr@[j as int] == arr@[j - 1] {
                            T::le_refl(arr@[j as int]);
                        }
                        assert(arr@[j - 1].le(arr@[j as int]));
                        assert forall|p: int, q: int| 0 <= p <= q <= i implies #[trigger] arr@[
                            p
                        ].le(arr@[q]) by {
                            if q == j && p < j {
                                T::le_trans(arr@[p], arr@[j - 1], arr@[j as int]);
                            } else if q == j && p == q {
                                T::le_refl(arr@[p]);
                            }
                        }
                    }
                }
                break ;
            }
            let ghost before = arr@;
            exchange(arr, j, j - h);
            proof {
                if h == 1 {
                    assert(before[j as int].le(before[j - 1]) && before[j as int] != before[j
                        - 1]);
                    assert forall|p: int, q: int|
                        0 <= p <= q <= i && q != j - 1 implies #[trigger] arr@[p].le(
                        arr@[q],
                    ) by {
                        let vp = if p == j - 1 {
                            before[j as int]
                        } else if p == j {
                            before[j - 1]
                        } else {
                            before[p]
                        };
                        let vq = if q == j {
                            before[j - 1]
                        } else {
                            before[q]
                        };
                        assert(arr@[p] == vp && arr@[q] == vq);
                        if p == j - 1 {
                            if q == j {
                                assert(before[j as int].le(before[j - 1]));
                            } else {
                                T::le_trans(before[j as int], before[j - 1], before[q]);
                            }
                        } else if p == j {
                            assert(before[j - 1].le(vq));
                        } else {
                            assert(before[p].le(vq));
                        }
                    }
                    assert forall|q: int| j - 1 < q <= i implies #[trigger] arr@[j - 1].le(
                        arr@[q],
                    ) by {
                        let vq = if q == j {
                            before[j - 1]
                        } else {
                            before[q]
                        };
                        assert(arr@[q] == vq && arr@[j - 1] == before[j as int]);
                        if q == j {
                            assert(before[j as int].le(before[j - 1]));
                        } else {
                            assert(before[j as int].le(before[q]));
                        }
                    }
                }
            }
            j = j - h;
        }
        i = i + 1;
    }
    proof {
        if h == 1 && arr.len() <= 1 {
            assert forall|p: int, q: int| 0 <= p <= q < arr.len() implies arr@[p].le(
                arr@[q],
            ) by {
                T::le_refl(arr@[p]);
            }
        }
    }
}

/// The largest gap of the sequence 1, 4, 13, 40, ... that is smaller than
/// the array length (0 for arrays that are already trivially sorted).
pub fn calc_max_h(arr_len: usize) -> (h: usize)
    ensures
        arr_len < 2 ==> h == 0,
        arr_len >= 2 ==> is_gap(h as nat) && h < arr_len && 3 * h + 1 >= arr_len,
{
    if arr_len < 2 {
        return 0;
    }

    let mut h: usize = 1;
    proof {
        assert(1nat == gap_seq(0));
    }
    #[verifier::loop_isolation(false)]
    while h <= (arr_len - 2) / 3
        invariant
            1 <= h < arr_len,
            is_gap(h as nat),
        decreases arr_len - h,
    {
        proof {
            let k = choose|k: nat| h as nat == gap_seq(k);
            assert(3 * h + 1 == gap_seq(k + 1));
        }
        h = 3 * h + 1;
    }
    h
}

} // verus!
