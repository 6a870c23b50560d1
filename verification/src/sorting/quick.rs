//! Quicksort.

use super::{exchange, lemma_agree_on, lemma_multiset_ge_bound, lemma_multiset_le_bound, lemma_swap_multiset};
use crate::search::sorted_asc;
use crate::symbol_table::KeyT;
use core::cmp::Ordering;
use rand::seq::SliceRandom;
use vstd::prelude::*;
use vstd::seq_lib::lemma_multiset_commutative;

verus! {

/// Relies on rand::seq::SliceRandom::shuffle: it permutes the slice in
/// place, so the length and the multiset of elements are unchanged,
/// whatever order the randomness produces.
#[verifier::external_body]
fn shuffle<T>(arr: &mut Vec<T>)
    ensures
        final(arr).len() == old(arr).len(),
        final(arr)@.to_multiset() == old(arr)@.to_multiset(),
{
    arr.shuffle(&mut rand::thread_rng());
}

/// Shuffle to make pathological inputs unlikely, then sort recursively
/// around partition elements.
pub fn quick_sort<T: KeyT>(arr: &mut Vec<T>)
    ensures
        sorted_asc(final(arr)@),
        final(arr)@.to_multiset() == old(arr)@.to_multiset(),
{
    shuffle(arr);
    let ghost shuffled = arr@;
    let len = arr.len();
    sort(arr, 0, len);
    proof {
        assert(arr@.subrange(0, len as int) =~= arr@);
        assert(shuffled.subrange(0, len as int) =~= shuffled);
    }
}

/// Sort `arr[lo..hi)` in place; everything outside the range stays put.
fn sort<T: KeyT>(arr: &mut Vec<T>, lo: usize, hi: usize)
    requires
        lo <= hi <= old(arr).len(),
    ensures
        final(arr).len() == old(arr).len(),
        final(arr)@.subrange(lo as int, hi as int).to_multiset() == old(arr)@.subrange(
            lo as int,
            hi as int,
        ).to_multiset(),
        sorted_asc(final(arr)@.subrange(lo as int, hi as int)),
        final(arr)@.subrange(0, lo as int) == old(arr)@.subrange(0, lo as int),
        final(arr)@.subrange(hi as int, old(arr).len() as int) == old(arr)@.subrange(
            hi as int,
            old(arr).len() as int,
        ),
    decreases hi - lo,
{
    if hi - lo > 1 {
        let ghost len = arr.len() as int;
        let k = partition(arr, lo, hi);
        let ghost after_part = arr@;
        let ghost pivot = arr@[k as int];
        sort(arr, lo, k);
        let ghost after_left = arr@;
        proof {
            lemma_agree_on(after_left, after_part, k as int, len);
            lemma_agree_on(after_left, after_part, 0, lo as int);
            assert forall|t: int| lo <= t < k implies #[trigger] after_left[t].le(pivot) by {
                assert(forall|t: int|
                    lo <= t < k ==> after_part.subrange(lo as int, k as int)[t - lo]
                        == after_part[t]);
                lemma_multiset_le_bound(
                    after_part.subrange(lo as int, k as int),
                    after_left.subrange(lo as int, k as int),
                    pivot,
                );
                assert(after_left.subrange(lo as int, k as int)[t - lo].le(pivot));
                assert(after_left.subrange(lo as int, k as int)[t - lo] == after_left[t]);
            }
        }
        sort(arr, k + 1, hi);
        proof {
            let fin = arr@;
            lemma_agree_on(fin, after_left, 0, (k + 1) as int);
            lemma_agree_on(fin, after_left, hi as int, len);
            assert(fin[k as int] == pivot);
            // the left run kept its places and order
            assert(fin.subrange(lo as int, k as int) =~= after_left.subrange(lo as int, k as int));
            assert(sorted_asc(fin.subrange(lo as int, k as int)));
            assert forall|t: int| lo <= t < k implies #[trigger] fin[t].le(pivot) by {
                assert(fin[t] == after_left[t]);
                assert(after_left[t].le(pivot));
            }
            // the right run is a rearrangement of what partition left there
            assert(after_left.subrange((k + 1) as int, hi as int) =~= after_part.subrange(
                (k + 1) as int,
                hi as int,
            ));
            assert forall|t: int| k < t < hi implies pivot.le(#[trigger] fin[t]) by {
                assert(forall|t: int|
                    k + 1 <= t < hi ==> after_part.subrange((k + 1) as int, hi as int)[t - k - 1]
                        == after_part[t]);
                lemma_multiset_ge_bound(
                    after_part.subrange((k + 1) as int, hi as int),
                    fin.subrange((k + 1) as int, hi as int),
                    pivot,
                );
                assert(pivot.le(fin.subrange((k + 1) as int, hi as int)[t - k - 1]));
                assert(fin.subrange((k + 1) as int, hi as int)[t - k - 1] == fin[t]);
            }
            // the three parts line up into a sorted whole
            assert forall|p: int, q: int|
                0 <= p <= q < hi - lo implies #[trigger] fin.subrange(lo as int, hi as int)[p].le(
                #[trigger] fin.subrange(lo as int, hi as int)[q],
            ) by {
                let a = p + lo;
                let b = q + lo;
                assert(fin.subrange(lo as int, hi as int)[p] == fin[a]);
                assert(fin.subrange(lo as int, hi as int)[q] == fin[b]);
                if b < k {
                    assert(fin.subrange(lo as int, k as int)[a - lo].le(fin.subrange(
                        lo as int,
                        k as int,
                    )[b - lo]));
                    assert(fin.subrange(lo as int, k as int)[a - lo] == fin[a]);
                    assert(fin.subrange(lo as int, k as int)[b - lo] == fin[b]);
                } else if a > k {
                    assert(sorted_asc(fin.subrange((k + 1) as int, hi as int)));
                    assert(fin.subrange((k + 1) as int, hi as int)[a - k - 1].le(fin.subrange(
                        (k + 1) as int,
                        hi as int,
                    )[b - k - 1]));
                    assert(fin.subrange((k + 1) as int, hi as int)[a - k - 1] == fin[a]);
                    assert(fin.subrange((k + 1) as int, hi as int)[b - k - 1] == fin[b]);
                } else if a == k && b == k {
                    T::le_refl(fin[a]);
                } else if a == k {
                    assert(pivot.le(fin[b]));
                } else if b == k {
                    assert(fin[a].le(pivot));
                } else {
                    assert(fin[a].le(pivot));
                    assert(pivot.le(fin[b]));
                    T::le_trans(fin[a], pivot, fin[b]);
                }
            }
            assert(sorted_asc(fin.subrange(lo as int, hi as int)));
            // and the multiset is the sum of the parts, before and after
            lemma_subrange_three_parts(after_part, lo as int, k as int, hi as int);
            lemma_subrange_three_parts(fin, lo as int, k as int, hi as int);
            assert(fin.subrange(lo as int, hi as int).to_multiset() =~= after_part.subrange(
                lo as int,
                hi as int,
            ).to_multiset());
            assert(fin.subrange(0, lo as int) =~= old(arr)@.subrange(0, lo as int)) by {
                lemma_agree_on(after_part, old(arr)@, 0, lo as int);
            }
            assert(fin.subrange(hi as int, len) =~= old(arr)@.subrange(hi as int, len)) by {
                lemma_agree_on(after_part, old(arr)@, hi as int, len);
            }
        }
    } else {
        proof {
            assert(arr@.subrange(lo as int, hi as int) =~= old(arr)@.subrange(
                lo as int,
                hi as int,
            ));
            assert forall|p: int, q: int|
                0 <= p <= q < hi - lo implies #[trigger] arr@.subrange(lo as int, hi as int)[
                p
            ].le(#[trigger] arr@.subrange(lo as int, hi as int)[q]) by {
                T::le_refl(arr@.subrange(lo as int, hi as int)[p]);
            }
        }
    }
}

/// A range seen as its part below `k`, the entry at `k`, and its part
/// above `k`: the multisets add up.
proof fn lemma_subrange_three_parts<T>(s: Seq<T>, lo: int, k: int, hi: int)
    requires
        0 <= lo <= k < hi <= s.len(),
    ensures
        s.subrange(lo, hi).to_multiset() == s.subrange(lo, k).to_multiset().insert(s[k]).add(
            s.subrange(k + 1, hi).to_multiset(),
        ),
{
    broadcast use vstd::seq_lib::group_to_multiset_ensures;

    let left = s.subrange(lo, k);
    let right = s.subrange(k + 1, hi);
    assert(s.subrange(lo, hi) =~= left.push(s[k]) + right);
    lemma_multiset_commutative(left.push(s[k]), right);
    assert(left.push(s[k]).to_multiset() =~= left.to_multiset().insert(s[k]));
    assert(s.subrange(lo, hi).to_multiset() =~= left.to_multiset().insert(s[k]).add(
        right.to_multiset(),
    ));
}

/// Partition `arr[lo..hi)` around its final entry: afterwards the entry
/// at the returned index has everything below it on its left and
/// everything above it on its right.
fn partition<T: KeyT>(arr: &mut Vec<T>, lo: usize, hi: usize) -> (k: usize)
    requires
        lo < hi <= old(arr).len(),
    ensures
        lo <= k < hi,
        final(arr).len() == old(arr).len(),
        final(arr)@.subrange(lo as int, hi as int).to_multiset() == old(arr)@.subrange(
            lo as int,
            hi as int,
        ).to_multiset(),
        final(arr)@.subrange(0, lo as int) == old(arr)@.subrange(0, lo as int),
        final(arr)@.subrange(hi as int, old(arr).len() as int) == old(arr)@.subrange(
            hi as int,
            old(arr).len() as int,
        ),
        forall|t: int| lo <= t < k ==> #[trigger] final(arr)@[t].le(final(arr)@[k as int]),
        forall|t: int| k < t < hi ==> final(arr)@[k as int].le(#[trigger] final(arr)@[t]),
{
    let p = hi - 1;
    let mut i = lo;
    let mut j = lo;
    #[verifier::loop_isolation(false)]
    while j < p
        invariant
            lo <= i <= j <= p,
            arr.len() == old(arr).len(),
            arr@.subrange(lo as int, hi as int).to_multiset() == old(arr)@.subrange(
                lo as int,
                hi as int,
            ).to_multiset(),
            arr@.subrange(0, lo as int) == old(arr)@.subrange(0, lo as int),
            arr@.subrange(hi as int, old(arr).len() as int) == old(arr)@.subrange(
                hi as int,
                old(arr).len() as int,
            ),
            forall|t: int| lo <= t < i ==> #[trigger] arr@[t].le(arr@[p as int]),
            forall|t: int| i <= t < j ==> arr@[p as int].le(#[trigger] arr@[t]),
        decreases p - j,
    {
        let less = match arr[j].key_cmp(&arr[p]) {
            Ordering::Less => true,
            _ => false,
        };
        if less {
            let ghost before = arr@;
            exchange(arr, i, j);
            proof {
                lemma_exchange_in_range(before, arr@, lo as int, hi as int, i as int, j as int);
            }
            i = i + 1;
        } else {
            proof {
                if arr@[j as int] == arr@[p as int] {
                    T::le_refl(arr@[j as int]);
                }
                assert(arr@[p as int].le(arr@[j as int]));
            }
        }
        j = j + 1;
    }
    let ghost before = arr@;
    exchange(arr, i, p);
    proof {
        lemma_exchange_in_range(before, arr@, lo as int, hi as int, i as int, p as int);
        assert forall|t: int| lo <= t < i implies #[trigger] arr@[t].le(arr@[i as int]) by {
            assert(arr@[t] == before[t]);
            assert(arr@[i as int] == before[p as int]);
        }
        assert forall|t: int| i < t < hi implies arr@[i as int].le(#[trigger] arr@[t]) by {
            assert(arr@[i as int] == before[p as int]);
            if t == p {
                assert(arr@[t] == before[i as int]);
                if i < p {
                    assert(before[p as int].le(before[i as int]));
                } else {
                    T::le_refl(arr@[t]);
                }
            } else {
                assert(arr@[t] == before[t]);
            }
        }
    }
    i
}

/// Swapping two entries inside a range keeps the range's multiset and
/// everything outside the range.
proof fn lemma_exchange_in_range<T>(before: Seq<T>, after: Seq<T>, lo: int, hi: int, i: int, j: int)
    requires
        0 <= lo <= i < hi <= before.len(),
        lo <= j < hi,
        after == before.update(i, before[j]).update(j, before[i]),
    ensures
        after.len() == before.len(),
        after.subrange(lo, hi).to_multiset() == before.subrange(lo, hi).to_multiset(),
        after.subrange(0, lo) == before.subrange(0, lo),
        after.subrange(hi, before.len() as int) == before.subrange(hi, before.len() as int),
{
    let sb = before.subrange(lo, hi);
    let sa = after.subrange(lo, hi);
    assert(sa =~= sb.update(i - lo, sb[j - lo]).update(j - lo, sb[i - lo]));
    lemma_swap_multiset(sb, i - lo, j - lo);
    assert(after.subrange(0, lo) =~= before.subrange(0, lo));
    assert(after.subrange(hi, before.len() as int) =~= before.subrange(hi, before.len() as int));
}

} // verus!
