//! Merge sort.

use super::lemma_agree_on;
use crate::search::sorted_asc;
use crate::symbol_table::KeyT;
use core::cmp::Ordering;
use vstd::prelude::*;
use vstd::seq_lib::lemma_multiset_commutative;

verus! {

/// Sort by recursively sorting both halves and merging them.
pub fn merge_sort<T: KeyT>(arr: &mut Vec<T>)
    ensures
        sorted_asc(final(arr)@),
        final(arr)@.to_multiset() == old(arr)@.to_multiset(),
{
    let len = arr.len();
    sort(arr, 0, len);
    proof {
        assert(arr@.subrange(0, len as int) =~= arr@);
        assert(old(arr)@.subrange(0, len as int) =~= old(arr)@);
    }
}

/// Sort `arr[lo..hi)` in place; everything outside the range stays put.
fn sort<T: KeyT>(arr: &mut Vec<T>, lo: usize, hi: usize)
    requires
        lo <= hi <= old(arr).len(),
    ensures
        final(arr).len() == old(arr).len(),
        final(arr)@.subrange(lo as int, hi as int).to_multiset() == old(arr)@.subrange(
            lo as int,
            hi as int,
        ).to_multiset(),
        sorted_asc(final(arr)@.subrange(lo as int, hi as int)),
        final(arr)@.subrange(0, lo as int) == old(arr)@.subrange(0, lo as int),
        final(arr)@.subrange(hi as int, old(arr).len() as int) == old(arr)@.subrange(
            hi as int,
            old(arr).len() as int,
        ),
    decreases hi - lo,
{
    if hi - lo > 1 {
        let ghost len = arr.len() as int;
        let m = lo + (hi - lo) / 2;
        sort(arr, lo, m);
        let ghost s1 = arr@;
        sort(arr, m, hi);
        let ghost s2 = arr@;
        proof {
            lemma_agree_on(s2, s1, 0, m as int);
            lemma_agree_on(s1, old(arr)@, m as int, len);
            lemma_agree_on(s1, old(arr)@, 0, lo as int);
            assert(s2.subrange(lo as int, m as int) =~= s1.subrange(lo as int, m as int));
            assert(sorted_asc(s2.subrange(lo as int, m as int)));
        }
        merge(arr, lo, m, hi);
        proof {
            let fin = arr@;
            assert(s2.subrange(m as int, hi as int).to_multiset() == old(arr)@.subrange(
                m as int,
                hi as int,
            ).to_multiset()) by {
                assert(s1.subrange(m as int, hi as int) =~= old(arr)@.subrange(
                    m as int,
                    hi as int,
                ));
            }
            assert(s2.subrange(lo as int, m as int).to_multiset() == old(arr)@.subrange(
                lo as int,
                m as int,
            ).to_multiset());
            lemma_concat_parts(old(arr)@, lo as int, m as int, hi as int);
            assert(fin.subrange(lo as int, hi as int).to_multiset() == old(arr)@.subrange(
                lo as int,
                hi as int,
            ).to_multiset());
            assert(fin.subrange(0, lo as int) =~= old(arr)@.subrange(0, lo as int)) by {
                lemma_agree_on(fin, s2, 0, lo as int);
                lemma_agree_on(s2, s1, 0, m as int);
                lemma_agree_on(s1, old(arr)@, 0, lo as int);
            }
            assert(fin.subrange(hi as int, len) =~= old(arr)@.subrange(hi as int, len)) by {
                lemma_agree_on(fin, s2, hi as int, len);
                lemma_agree_on(s2, s1, hi as int, len);
                lemma_agree_on(s1, old(arr)@, m as int, len);
            }
        }
    } else {
        proof {
            assert(arr@.subrange(lo as int, hi as int) =~= old(arr)@.subrange(
                lo as int,
                hi as int,
            ));
            assert forall|p: int, q: int|
                0 <= p <= q < hi - lo implies #[trigger] arr@.subrange(lo as int, hi as int)[
                p
            ].le(#[trigger] arr@.subrange(lo as int, hi as int)[q]) by {
                T::le_refl(arr@.subrange(lo as int, hi as int)[p]);
            }
        }
    }
}

/// A range's multiset is the sum of the multisets of its two halves.
proof fn lemma_concat_parts<T>(s: Seq<T>, lo: int, m: int, hi: int)
    requires
        0 <= lo <= m <= hi <= s.len(),
    ensures
        s.subrange(lo, hi).to_multiset() == s.subrange(lo, m).to_multiset().add(
            s.subrange(m, hi).to_multiset(),
        ),
{
    assert(s.subrange(lo, hi) =~= s.subrange(lo, m) + s.subrange(m, hi));
    lemma_multiset_commutative(s.subrange(lo, m), s.subrange(m, hi));
}

/// Merge the two sorted runs `arr[lo..m)` and `arr[m..hi)` into one
/// sorted run, using a temporary buffer.
fn merge<T: KeyT>(arr: &mut Vec<T>, lo: usize, m: usize, hi: usize)
    requires
        lo <= m <= hi <= old(arr).len(),
        sorted_asc(old(arr)@.subrange(lo as int, m as int)),
        sorted_asc(old(arr)@.subrange(m as int, hi as int)),
    ensures
        final(arr).len() == old(arr).len(),
        sorted_asc(final(arr)@.subrange(lo as int, hi as int)),
        final(arr)@.subrange(lo as int, hi as int).to_multiset() == old(arr)@.subrange(
            lo as int,
            m as int,
        ).to_multiset().add(old(arr)@.subrange(m as int, hi as int).to_multiset()),
        final(arr)@.subrange(0, lo as int) == old(arr)@.subrange(0, lo as int),
        final(arr)@.subrange(hi as int, old(arr).len() as int) == old(arr)@.subrange(
            hi as int,
            old(arr).len() as int,
        ),
{
    broadcast use vstd::seq_lib::group_to_multiset_ensures;

    let mut merged: Vec<T> = Vec::new();
    let mut i = lo;
    let mut j = m;
    #[verifier::loop_isolation(false)]
    while i < m || j < hi
        invariant
            lo <= i <= m <= j <= hi,
            arr@ == old(arr)@,
            merged.len() == i - lo + (j - m),
            sorted_asc(merged@),
            merged@.to_multiset() == arr@.subrange(lo as int, i as int).to_multiset().add(
                arr@.subrange(m as int, j as int).to_multiset(),
            ),
            forall|s: int, t: int|
                0 <= s < merged.len() && i <= t < m ==> #[trigger] merged@[s].le(arr@[t]),
            forall|s: int, t: int|
                0 <= s < merged.len() && j <= t < hi ==> #[trigger] merged@[s].le(arr@[t]),
        decreases (m - i) + (hi - j),
    {
        let take_left = if i >= m {
            false
        } else if j >= hi {
            true
        } else {
            match arr[i].key_cmp(&arr[j]) {
                Ordering::Less => true,
                _ => false,
            }
        };
        let ghost pre = merged@;
        if take_left {
            let x = arr[i];
            merged.push(x);
            proof {
                assert(arr@.subrange(lo as int, (i + 1) as int) =~= arr@.subrange(
                    lo as int,
                    i as int,
                ).push(x));
                lemma_step_multiset(
                    pre,
                    x,
                    arr@.subrange(lo as int, i as int),
                    arr@.subrange(m as int, j as int),
                    true,
                );
                assert forall|s: int, t: int|
                    0 <= s < merged.len() && i + 1 <= t < m implies #[trigger] merged@[s].le(
                    arr@[t],
                ) by {
                    assert(arr@.subrange(lo as int, m as int)[i - lo].le(arr@.subrange(
                        lo as int,
                        m as int,
                    )[t - lo]));
                    if s < pre.len() {
                        assert(pre[s].le(arr@[i as int]));
                        T::le_trans(merged@[s], arr@[i as int], arr@[t]);
                    }
                }
                assert forall|s: int, t: int|
                    0 <= s < merged.len() && j <= t < hi implies #[trigger] merged@[s].le(
                    arr@[t],
                ) by {
                    if s == pre.len() {
                        assert(j < hi ==> x.le(arr@[t])) by {
                            if j < hi {
                                assert(x.le(arr@[j as int]));
                                assert(arr@.subrange(m as int, hi as int)[j - m].le(arr@.subrange(
                                    m as int,
                                    hi as int,
                                )[t - m]));
                                T::le_trans(x, arr@[j as int], arr@[t]);
                            }
                        }
                    }
                }
                assert forall|s: int, t: int| 0 <= s <= t < merged.len() implies #[trigger] merged@[
                    s
                ].le(merged@[t]) by {
                    if t == pre.len() {
                        if s == t {
                            T::le_refl(merged@[s]);
                        } else {
                            assert(pre[s].le(arr@[i as int]));
                        }
                    }
                }
            }
            i = i + 1;
        } else {
            let x = arr[j];
            merged.push(x);
            proof {
                if i < m {
                    if arr@[i as int] == arr@[j as int] {
                        T::le_refl(arr@[i as int]);
                    }
                    assert(arr@[j as int].le(arr@[i as int]));
                }
                assert(arr@.subrange(m as int, (j + 1) as int) =~= arr@.subrange(
                    m as int,
                    j as int,
                ).push(x));
                lemma_step_multiset(
                    pre,
                    x,
                    arr@.subrange(lo as int, i as int),
                    arr@.subrange(m as int, j as int),
                    false,
                );
                assert forall|s: int, t: int|
                    0 <= s < merged.len() && i <= t < m implies #[trigger] merged@[s].le(
                    arr@[t],
                ) by {
                    if s == pre.len() {
                        assert(x.le(arr@[i as int]));
                        assert(arr@.subrange(lo as int, m as int)[i - lo].le(arr@.subrange(
                            lo as int,
                            m as int,
                        )[t - lo]));
                        T::le_trans(x, arr@[i as int], arr@[t]);
                    }
                }
                assert forall|s: int, t: int|
                    0 <= s < merged.len() && j + 1 <= t < hi implies #[trigger] merged@[s].le(
                    arr@[t],
                ) by {
                    assert(arr@.subrange(m as int, hi as int)[j - m].le(arr@.subrange(
                        m as int,
                        hi as int,
                    )[t - m]));
                    if s < pre.len() {
                        assert(pre[s].le(arr@[j as int]));
                        T::le_trans(merged@[s], arr@[j as int], arr@[t]);
                    }
                }
                assert forall|s: int, t: int| 0 <= s <= t < merged.len() implies #[trigger] merged@[
                    s
                ].le(merged@[t]) by {
                    if t == pre.len() {
                        if s == t {
                            T::le_refl(merged@[s]);
                        } else {
                            assert(pre[s].le(arr@[j as int]));
                        }
                    }
                }
            }
            j = j + 1;
        }
    }

    // write the merged run back over the range
    let mut k: usize = 0;
    #[verifier::loop_isolation(false)]
    while k < hi - lo
        invariant
            k <= hi - lo,
            merged.len() == hi - lo,
            arr.len() == old(arr).len(),
            forall|t: int| 0 <= t < k ==> arr@[lo + t] == #[trigger] merged@[t],
            forall|t: int| (0 <= t < lo || lo + k <= t < arr.len()) ==> arr@[t] == old(arr)@[t],
        decreases hi - lo - k,
    {
        arr[lo + k] = merged[k];
        k = k + 1;
    }
    proof {
        assert(arr@.subrange(lo as int, hi as int) =~= merged@);
        assert(arr@.subrange(0, lo as int) =~= old(arr)@.subrange(0, lo as int));
        assert(arr@.subrange(hi as int, old(arr)@.len() as int) =~= old(arr)@.subrange(
            hi as int,
            old(arr)@.len() as int,
        ));
        assert(old(arr)@.subrange(lo as int, i as int) =~= old(arr)@.subrange(
            lo as int,
            m as int,
        ));
        assert(old(arr)@.subrange(m as int, j as int) =~= old(arr)@.subrange(m as int, hi as int));
    }
}

/// Extending either taken prefix by its next entry adds exactly that
/// entry to the merged multiset.
proof fn lemma_step_multiset<T>(pre: Seq<T>, x: T, left: Seq<T>, right: Seq<T>, from_left: bool)
    requires
        pre.to_multiset() == left.to_multiset().add(right.to_multiset()),
    ensures
        from_left ==> pre.push(x).to_multiset() == left.push(x).to_multiset().add(
            right.to_multiset(),
        ),
        !from_left ==> pre.push(x).to_multiset() == left.to_multiset().add(
            right.push(x).to_multiset(),
        ),
{
    broadcast use vstd::seq_lib::group_to_multiset_ensures;

    if from_left {
        assert(pre.push(x).to_multiset() =~= left.push(x).to_multiset().add(right.to_multiset()));
    } else {
        assert(pre.push(x).to_multiset() =~= left.to_multiset().add(right.push(x).to_multiset()));
    }
}

} // verus!
