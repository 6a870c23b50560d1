//! Heap sort.

use super::{exchange, lemma_multiset_ge_bound, lemma_swap_multiset};
use crate::search::sorted_asc;
use crate::symbol_table::KeyT;
use core::cmp::Ordering;
use vstd::prelude::*;

verus! {

// The implicit tree places the children of node i at 2i and 2i + 1 and
// the parent of node k at k / 2 (so node 0 has the single child 1). A
// prefix of the array is a min-heap when every parent is at most its
// children; the root of a heap then holds a minimal entry.

/// Whether `k` lies in the subtree rooted at `j`: following parents from
/// `k` reaches `j`.
pub(crate) open spec fn in_subtree(j: int, k: int) -> bool
    decreases k,
{
    if k <= j || k <= 0 {
        k == j
    } else {
        in_subtree(j, k / 2)
    }
}

/// The min-heap ordering on the first `n` entries.
pub(crate) open spec fn heap_le<T: KeyT>(s: Seq<T>, n: int) -> bool {
    forall|k: int| 1 <= k < n ==> #[trigger] s[k / 2].le(s[k])
}

/// Every node lies in the subtree of the root.
pub(crate) proof fn lemma_subtree_total(k: int)
    requires
        0 <= k,
    ensures
        in_subtree(0, k),
    decreases k,
{
    if k > 0 {
        lemma_subtree_total(k / 2);
    }
}

/// Subtree membership is transitive.
pub(crate) proof fn lemma_subtree_trans(i: int, j: int, k: int)
    requires
        0 <= j,
        in_subtree(i, j),
        in_subtree(j, k),
    ensures
        in_subtree(i, k),
    decreases k,
{
    if k > j {
        lemma_subtree_trans(i, j, k / 2);
    }
}

/// A strict member of a subtree lies in the subtree of one of the root's
/// children.
pub(crate) proof fn lemma_subtree_children(i: int, k: int)
    requires
        0 <= i,
        in_subtree(i, k),
        k != i,
    ensures
        i == 0 ==> in_subtree(1, k),
        i >= 1 ==> in_subtree(2 * i, k) || in_subtree(2 * i + 1, k),
    decreases k,
{
    if k / 2 == i {
        assert(in_subtree(k, k));
    } else {
        lemma_subtree_children(i, k / 2);
    }
}

/// Within a subtree whose parent edges are all ordered, the subtree's
/// root is at most every entry of the subtree.
pub(crate) proof fn lemma_subtree_min<T: KeyT>(s: Seq<T>, n: int, j: int, t: int)
    requires
        0 <= j <= t < n <= s.len(),
        in_subtree(j, t),
        forall|k: int|
            1 <= k < n && in_subtree(j, k) && k != j ==> #[trigger] s[k / 2].le(s[k]),
    ensures
        s[j].le(s[t]),
    decreases t,
{
    if t == j {
        T::le_refl(s[j]);
    } else {
        assert(s[t / 2].le(s[t]));
        lemma_subtree_in_between(j, t);
        lemma_subtree_ge(j, t / 2);
        lemma_subtree_min(s, n, j, t / 2);
        T::le_trans(s[j], s[t / 2], s[t]);
    }
}

/// Sink the entry at position `i` down to its place in the heap prefix of
/// length `n`: while it is larger than a child, swap it with its smaller
/// child. Everything outside the subtree of `i` stays put, and lower
/// bounds that held for the whole subtree keep holding.
pub(crate) fn sink<T: KeyT>(arr: &mut Vec<T>, i: usize, n: usize)
    requires
        i < n <= old(arr).len(),
        forall|k: int|
            1 <= k < n && in_subtree(i as int, k) && k != i && k / 2 != i ==> #[trigger] old(
                arr,
            )@[k / 2].le(old(arr)@[k]),
    ensures
        final(arr).len() == old(arr).len(),
        final(arr)@.subrange(0, n as int).to_multiset() == old(arr)@.subrange(
            0,
            n as int,
        ).to_multiset(),
        forall|t: int|
            #![trigger final(arr)@[t]]
            0 <= t < old(arr).len() && (t >= n || !in_subtree(i as int, t)) ==> final(arr)@[t]
                == old(arr)@[t],
        forall|k: int|
            1 <= k < n && in_subtree(i as int, k) && k != i ==> #[trigger] final(arr)@[k / 2].le(
                final(arr)@[k],
            ),
        forall|x: T, t: int|
            #![trigger x.le(final(arr)@[t])]
            (0 <= t < n && in_subtree(i as int, t) && (forall|u: int|
                0 <= u < n && in_subtree(i as int, u) ==> x.le(#[trigger] old(arr)@[u]))) ==> x.le(
                final(arr)@[t],
            ),
    decreases n - i,
{
    // the children of i sit at 2i and 2i + 1, where they exist
    if i >= n - i {
        return ;
    }
    let l = 2 * i;
    let r = 2 * i + 1;
    let right_smaller = r < n && {
        let c = arr[r].key_cmp(&arr[l]);
        matches!(c, Ordering::Less)
    };
    let min_child = if right_smaller {
        r
    } else {
        l
    };
    proof {
        assert(in_subtree(i as int, i as int));
        assert(in_subtree(i as int, l as int) && in_subtree(i as int, r as int)) by {
            if i > 0 {
                assert(l / 2 == i && r / 2 == i);
            }
        }
    }
    let out_of_place = min_child != i && {
        let c = arr[i].key_cmp(&arr[min_child]);
        matches!(c, Ordering::Greater)
    };
    if !out_of_place {
        proof {
            let s = arr@;
            // the entry already sits below its children (where they are
            // real children and exist)
            assert forall|k: int|
                1 <= k < n && in_subtree(i as int, k) && k != i implies #[trigger] s[k / 2].le(
                s[k],
            ) by {
                if k / 2 == i {
                    assert(k == l || k == r);
                    if min_child != i {
                        assert(s[i as int].le(s[min_child as int])) by {
                            if s[i as int] == s[min_child as int] {
                                T::le_refl(s[i as int]);
                            }
                        }
                        if k != min_child && r < n {
                            // k is the larger child
                            if right_smaller {
                                assert(s[r as int].le(s[l as int]));
                                T::le_trans(s[i as int], s[r as int], s[l as int]);
                            } else {
                                assert(s[l as int].le(s[r as int])) by {
                                    if s[r as int] == s[l as int] {
                                        T::le_refl(s[r as int]);
                                    }
                                }
                                T::le_trans(s[i as int], s[l as int], s[r as int]);
                            }
                        }
                    } else {
                        // i == 0 with l == 0: the only real child is r
                        assert(i == 0 && min_child == l);
                        assert(k == r) by {
                            if k == l {
                                assert(k == i);
                            }
                        }
                        assert(!right_smaller);
                        assert(s[l as int].le(s[r as int])) by {
                            if s[r as int] == s[l as int] {
                                T::le_refl(s[r as int]);
                            }
                        }
                    }
                }
            }
        }
        return ;
    }
    let ghost before = arr@;
    exchange(arr, i, min_child);
    proof {
        lemma_swap_multiset(before.subrange(0, n as int), i as int, min_child as int);
        assert(arr@.subrange(0, n as int) =~= before.subrange(0, n as int).update(
            i as int,
            before[min_child as int],
        ).update(min_child as int, before[i as int]));
        // the recursive call's precondition: below min_child everything
        // is still in heap order
        assert forall|k: int|
            1 <= k < n && in_subtree(min_child as int, k) && k != min_child && k / 2
                != min_child implies #[trigger] arr@[k / 2].le(arr@[k]) by {
            assert(k > min_child);
            assert(in_subtree(min_child as int, k / 2));
            lemma_subtree_trans(i as int, min_child as int, k);
            lemma_subtree_trans(i as int, min_child as int, k / 2);
            assert(k / 2 != i && k != i) by {
                assert(i as int != min_child as int && i as int <= min_child as int);
            }
            assert(arr@[k / 2] == before[k / 2] && arr@[k] == before[k]);
        }
    }
    let ghost mid = arr@;
    sink(arr, min_child, n);
    proof {
        let fin = arr@;
        let piv = mid[i as int];
        assert(piv == before[min_child as int]);
        assert forall|k: int|
            1 <= k < n && in_subtree(min_child as int, k) && k != min_child implies #[trigger]
        before[k / 2].le(before[k]) by {
            lemma_subtree_in_between(min_child as int, k);
            lemma_subtree_ge(min_child as int, k / 2);
            lemma_subtree_trans(i as int, min_child as int, k);
            lemma_subtree_trans(i as int, min_child as int, k / 2);
        }
        assert forall|t: int|
            0 <= t < before.len() && (t >= n || !in_subtree(i as int, t)) implies fin[t]
                == before[t] by {
            assert(t != i && t != min_child) by {
                if t < n {
                    assert(in_subtree(i as int, i as int));
                    assert(in_subtree(i as int, min_child as int));
                }
            }
            assert(mid[t] == before[t]);
            if t < n {
                assert(!in_subtree(min_child as int, t)) by {
                    if in_subtree(min_child as int, t) {
                        lemma_subtree_trans(i as int, min_child as int, t);
                    }
                }
            }
            assert(fin[t] == mid[t]);
        }
        // the value now at i bounds everything in the subtree it used to
        // root, both before and after the repair below
        assert forall|t: int|
            0 <= t < n && in_subtree(min_child as int, t) implies piv.le(#[trigger] mid[t]) by {
            if t == min_child {
                assert(mid[t] == before[i as int]);
                assert(before[min_child as int].le(before[i as int]));
            } else {
                lemma_subtree_ge(min_child as int, t);
                assert(t > min_child);
                assert(mid[t] == before[t]);
                lemma_subtree_min(before, n as int, min_child as int, t);
            }
        }
        assert forall|t: int|
            0 <= t < n && in_subtree(min_child as int, t) implies piv.le(#[trigger] fin[t]) by {}
        assert(fin[i as int] == piv) by {
            assert(!in_subtree(min_child as int, i as int));
        }
        // all parent edges of the subtree of i now hold
        assert forall|k: int|
            1 <= k < n && in_subtree(i as int, k) && k != i implies #[trigger] fin[k / 2].le(
            fin[k],
        ) by {
            lemma_subtree_children(i as int, k);
            if in_subtree(min_child as int, k) {
                if k == min_child {
                    assert(k / 2 == i || (i == 0 && min_child == 1));
                    assert(fin[k / 2] == piv);
                    assert(piv.le(fin[k]));
                } else {
                    assert(in_subtree(min_child as int, k / 2));
                }
            } else {
                // k hangs under the sibling of min_child, whose whole
                // subtree kept its values
                let sib = if min_child == l {
                    r as int
                } else {
                    l as int
                };
                assert(in_subtree(sib, k)) by {
                    if i == 0 {
                        assert(in_subtree(1, k));
                        assert(min_child == r && sib == l);
                        assert(in_subtree(min_child as int, k));
                    }
                }
                assert(sib < n) by {
                    if sib >= n {
                        assert(k >= sib >= n) by {
                            lemma_subtree_ge(sib, k);
                        }
                    }
                }
                assert(!in_subtree(min_child as int, k / 2)) by {
                    if in_subtree(min_child as int, k / 2) {
                        lemma_subtree_trans(min_child as int, k / 2, k);
                    }
                }
                if k == sib {
                    // the edge from i to the larger child
                    assert(fin[k / 2] == fin[i as int] && fin[i as int] == piv);
                    assert(fin[k] == mid[k] && mid[k] == before[k]) by {
                        assert(!in_subtree(min_child as int, k));
                        assert(k != i && k != min_child);
                    }
                    assert(min_child == l ==> sib == r as int && r < n);
                    if min_child == l {
                        assert(!right_smaller);
                        assert(before[l as int].le(before[r as int])) by {
                            if before[r as int] == before[l as int] {
                                T::le_refl(before[r as int]);
                            }
                        }
                    } else {
                        assert(right_smaller);
                        assert(before[r as int].le(before[l as int]));
                    }
                } else {
                    // an edge strictly inside the sibling subtree
                    assert(in_subtree(sib, k / 2)) by {
                        lemma_subtree_in_between(sib, k);
                    }
                    assert(k / 2 != i && k != i && k != min_child && k / 2 != min_child) by {
                        assert(sib > i as int);
                        lemma_subtree_ge(sib, k);
                        lemma_subtree_ge(sib, k / 2);
                        assert(!in_subtree(min_child as int, k / 2));
                        assert(!in_subtree(min_child as int, k));
                    }
                    assert(fin[k] == mid[k] && mid[k] == before[k]);
                    assert(fin[k / 2] == mid[k / 2] && mid[k / 2] == before[k / 2]) by {
                        assert(!in_subtree(min_child as int, k / 2));
                    }
                    assert(in_subtree(i as int, k / 2)) by {
                        if i >= 1 {
                            assert(sib / 2 == i);
                            lemma_subtree_trans(i as int, sib, k / 2);
                        } else {
                            lemma_subtree_total(k / 2);
                        }
                    }
                    assert(before[k / 2].le(before[k]));
                }
            }
        }
        // lower bounds over the whole subtree of i carry over
        assert forall|x: T, t0: int|
            #![trigger x.le(fin[t0])]
            (0 <= t0 < n && in_subtree(i as int, t0) && (forall|u: int|
                0 <= u < n && in_subtree(i as int, u) ==> x.le(#[trigger] before[u]))) implies x.le(
            fin[t0],
        ) by {
            assert forall|t: int|
                0 <= t < n && in_subtree(i as int, t) implies x.le(#[trigger] mid[t]) by {
                if t == i {
                    assert(mid[t] == before[min_child as int]);
                } else if t == min_child {
                    assert(mid[t] == before[i as int]);
                } else {
                    assert(mid[t] == before[t]);
                }
            }
            assert forall|t: int|
                0 <= t < n && in_subtree(min_child as int, t) implies x.le(
                #[trigger] mid[t],
            ) by {
                lemma_subtree_trans(i as int, min_child as int, t);
            }
            if in_subtree(min_child as int, t0) {
                assert(x.le(fin[t0]));
            } else {
                assert(fin[t0] == mid[t0]);
            }
        }
    }
}

/// Every member of a subtree is at least the root.
pub(crate) proof fn lemma_subtree_ge(j: int, k: int)
    requires
        in_subtree(j, k),
    ensures
        k >= j,
    decreases k,
{
    if k > j {
        lemma_subtree_in_between(j, k);
    }
}

/// The parent of a strict subtree member is still in the subtree.
pub(crate) proof fn lemma_subtree_in_between(j: int, k: int)
    requires
        in_subtree(j, k),
        k != j,
    ensures
        in_subtree(j, k / 2),
        k > j,
{
    if k <= j {
        assert(k == j);
    }
}

/// Heapify the array, repeatedly swap the minimum to the back of the
/// shrinking heap, then reverse: the array ends up in ascending order.
pub fn heap_sort<T: KeyT>(arr: &mut Vec<T>)
    ensures
        sorted_asc(final(arr)@),
        final(arr)@.to_multiset() == old(arr)@.to_multiset(),
{
    let n = arr.len();
    let len = arr.len();

    // heapify: repair subtrees bottom-up
    let mut i = n;
    #[verifier::loop_isolation(false)]
    while i > 0
        invariant
            i <= n == arr.len() == old(arr).len(),
            arr@.to_multiset() == old(arr)@.to_multiset(),
            forall|k: int| 1 <= k < n && k / 2 >= i ==> #[trigger] arr@[k / 2].le(arr@[k]),
        decreases i,
    {
        i = i - 1;
        let ghost pre = arr@;
        proof {
            assert forall|k: int|
                1 <= k < n && in_subtree(i as int, k) && k != i && k / 2 != i implies #[trigger]
            pre[k / 2].le(pre[k]) by {
                lemma_subtree_in_between(i as int, k);
                lemma_subtree_in_between(i as int, k / 2);
            }
        }
        sink(arr, i, n);
        proof {
            assert(pre.subrange(0, n as int) =~= pre);
            assert(arr@.subrange(0, n as int) =~= arr@);
            assert forall|k: int| 1 <= k < n && k / 2 >= i implies #[trigger] arr@[k / 2].le(
                arr@[k],
            ) by {
                if in_subtree(i as int, k) && k != i {
                    assert(arr@[k / 2].le(arr@[k]));
                } else {
                    assert(k / 2 > i || k == i) by {
                        if k / 2 == i {
                            assert(in_subtree(i as int, k / 2));
                            assert(in_subtree(i as int, k));
                            assert(k != i);
                        }
                    }
                    if k == i {
                        assert(k / 2 < k);
                        assert(false);
                    } else {
                        assert(!in_subtree(i as int, k));
                        assert(!in_subtree(i as int, k / 2)) by {
                            if in_subtree(i as int, k / 2) {
                                assert(k > i) by {
                                    if k <= i {
                                        assert(k / 2 < k);
                                    }
                                }
                                assert(in_subtree(i as int, k));
                            }
                        }
                        assert(arr@[k] == pre[k] && arr@[k / 2] == pre[k / 2]);
                    }
                }
            }
        }
    }

    // sort down: swap the minimum to the back and repair the root
    let mut m = n;
    #[verifier::loop_isolation(false)]
    while m > 0
        invariant
            m <= n == arr.len() == old(arr).len(),
            arr@.to_multiset() == old(arr)@.to_multiset(),
            forall|k: int| 1 <= k < m ==> #[trigger] arr@[k / 2].le(arr@[k]),
            forall|p: int, q: int| m <= p <= q < n ==> #[trigger] arr@[q].le(arr@[p]),
            forall|s: int, t: int|
                0 <= s < m <= t < n ==> #[trigger] arr@[t].le(#[trigger] arr@[s]),
        decreases m,
    {
        m = m - 1;
        let ghost pre = arr@;
        proof {
            assert forall|s: int| 0 <= s < m + 1 implies pre[0].le(#[trigger] pre[s]) by {
                lemma_subtree_total(s);
                assert forall|k: int|
                    1 <= k < m + 1 && in_subtree(0, k) && k != 0 implies #[trigger] pre[k
                    / 2].le(pre[k]) by {}
                lemma_subtree_min(pre, m + 1, 0, s);
            }
        }
        exchange(arr, 0, m);
        let ghost swapped = arr@;
        if m > 0 {
            proof {
                assert forall|k: int|
                    1 <= k < m && in_subtree(0, k) && k != 0 && k / 2 != 0 implies #[trigger]
                swapped[k / 2].le(swapped[k]) by {
                    assert(swapped[k] == pre[k] && swapped[k / 2] == pre[k / 2]);
                }
            }
            sink(arr, 0, m);
        }
        proof {
            let fin = arr@;
            assert(fin[m as int] == swapped[m as int]);
            assert(fin[m as int] == pre[0]);
            assert(fin.to_multiset() == swapped.to_multiset()) by {
                if m > 0 {
                    assert(fin.subrange(m as int, n as int) =~= swapped.subrange(
                        m as int,
                        n as int,
                    ));
                    assert(fin =~= fin.subrange(0, m as int) + fin.subrange(m as int, n as int));
                    assert(swapped =~= swapped.subrange(0, m as int) + swapped.subrange(
                        m as int,
                        n as int,
                    ));
                    vstd::seq_lib::lemma_multiset_commutative(
                        fin.subrange(0, m as int),
                        fin.subrange(m as int, n as int),
                    );
                    vstd::seq_lib::lemma_multiset_commutative(
                        swapped.subrange(0, m as int),
                        swapped.subrange(m as int, n as int),
                    );
                    assert(fin.to_multiset() =~= swapped.to_multiset());
                } else {
                    assert(fin =~= swapped);
                }
            }
            assert forall|k: int| 1 <= k < m implies #[trigger] fin[k / 2].le(fin[k]) by {
                lemma_subtree_total(k);
            }
            // the extracted minimum caps the new tail and floors nothing:
            // it is below everything still in the heap region
            assert forall|s: int, t: int|
                0 <= s < m <= t < n implies #[trigger] fin[t].le(#[trigger] fin[s]) by {
                assert(swapped.subrange(0, m as int).to_multiset() == fin.subrange(
                    0,
                    m as int,
                ).to_multiset()) by {
                    if m == 0 {
                        assert(swapped.subrange(0, 0) =~= fin.subrange(0, 0));
                    }
                }
                assert(forall|u: int|
                    0 <= u < m ==> #[trigger] swapped.subrange(0, m as int)[u] == swapped[u]);
                assert(forall|u: int|
                    0 <= u < m ==> #[trigger] fin.subrange(0, m as int)[u] == fin[u]);
                if t == m {
                    assert(fin[t] == pre[0]);
                    assert forall|u: int|
                        0 <= u < m implies pre[0].le(#[trigger] swapped.subrange(
                        0,
                        m as int,
                    )[u]) by {
                        if u == 0 {
                            assert(swapped[0] == pre[m as int]);
                            assert(pre[0].le(pre[m as int]));
                        } else {
                            assert(swapped[u] == pre[u]);
                            assert(pre[0].le(pre[u]));
                        }
                    }
                    lemma_multiset_ge_bound(
                        swapped.subrange(0, m as int),
                        fin.subrange(0, m as int),
                        pre[0],
                    );
                    assert(pre[0].le(fin.subrange(0, m as int)[s]));
                } else {
                    assert(fin[t] == pre[t]);
                    assert(pre[t].le(pre[0]));
                    assert forall|u: int|
                        0 <= u < m implies pre[t].le(#[trigger] swapped.subrange(
                        0,
                        m as int,
                    )[u]) by {
                        if u == 0 {
                            assert(swapped[0] == pre[m as int]);
                            assert(pre[t].le(pre[m as int]));
                        } else {
                            assert(swapped[u] == pre[u]);
                            assert(pre[t].le(pre[u]));
                        }
                    }
                    lemma_multiset_ge_bound(
                        swapped.subrange(0, m as int),
                        fin.subrange(0, m as int),
                        pre[t],
                    );
                    assert(pre[t].le(fin.subrange(0, m as int)[s]));
                }
            }
            assert forall|p: int, q: int| m <= p <= q < n implies #[trigger] fin[q].le(
                fin[p],
            ) by {
                if p == m {
                    if q == m {
                        T::le_refl(fin[p]);
                    } else {
                        assert(fin[q] == pre[q]);
                        assert(pre[q].le(pre[0]));
                        assert(fin[p] == pre[0]);
                    }
                } else {
                    assert(fin[q] == pre[q] && fin[p] == pre[p]);
                }
            }
        }
    }

    // the array is now in descending order; reverse it
    let mut t: usize = 0;
    #[verifier::loop_isolation(false)]
    while t < len / 2
        invariant
            t <= len / 2,
            len == arr.len() == old(arr).len(),
            arr@.to_multiset() == old(arr)@.to_multiset(),
            forall|p: int, q: int|
                t <= p <= q < len - t ==> #[trigger] arr@[q].le(#[trigger] arr@[p]),
            forall|p: int, q: int|
                0 <= p < t && p < q < len ==> #[trigger] arr@[p].le(#[trigger] arr@[q]),
            forall|p: int, q: int|
                len - t <= p < len && 0 <= q < p ==> #[trigger] arr@[q].le(#[trigger] arr@[p]),
        decreases len - t,
    {
        let ghost before = arr@;
        exchange(arr, t, len - 1 - t);
        proof {
            let a = t as int;
            let b = len - 1 - t;
            assert forall|p: int, q: int|
                a + 1 <= p <= q < len - a - 1 implies #[trigger] arr@[q].le(
                #[trigger] arr@[p],
            ) by {
                assert(arr@[p] == before[p] && arr@[q] == before[q]);
            }
            assert forall|p: int, q: int|
                0 <= p < a + 1 && p < q < len implies #[trigger] arr@[p].le(
                #[trigger] arr@[q],
            ) by {
                let vp = if p == a {
                    before[b]
                } else {
                    before[p]
                };
                let vq = if q == a {
                    before[b]
                } else if q == b {
                    before[a]
                } else {
                    before[q]
                };
                assert(arr@[p] == vp && arr@[q] == vq);
                if p < a {
                    assert(before[p].le(vq));
                } else {
                    assert(p == a && vp == before[b]);
                    if q == b {
                        assert(before[b].le(before[a]));
                    } else if q > b {
                        assert(before[b].le(before[q]));
                    } else {
                        assert(a < q < b);
                        assert(before[b].le(before[q]));
                    }
                }
            }
            assert forall|p: int, q: int|
                len - a - 1 <= p < len && 0 <= q < p implies #[trigger] arr@[q].le(
                #[trigger] arr@[p],
            ) by {
                let vp = if p == b {
                    before[a]
                } else {
                    before[p]
                };
                let vq = if q == a {
                    before[b]
                } else if q == b {
                    before[a]
                } else {
                    before[q]
                };
                assert(arr@[p] == vp && arr@[q] == vq);
                if p > b {
                    assert(vq.le(before[p]));
                } else {
                    assert(p == b && vp == before[a]);
                    if q == a {
                        assert(before[b].le(before[a]));
                    } else if q < a {
                        assert(before[q].le(before[a]));
                    } else {
                        assert(a < q < b);
                        assert(before[q].le(before[a]));
                    }
                }
            }
        }
        t = t + 1;
    }
    proof {
        assert forall|p: int, q: int| 0 <= p <= q < len implies arr@[p].le(arr@[q]) by {
            if p == q {
                T::le_refl(arr@[p]);
            } else if p < t {
                assert(arr@[p].le(arr@[q]));
            } else if q >= len - t {
                assert(arr@[p].le(arr@[q]));
            } else {
                // at most one entry sits strictly between the reversed
                // halves
                assert(t <= p <= q < len - t);
                assert(t == len / 2);
                assert(len - 2 * t <= 1);
                assert(p == q);
                T::le_refl(arr@[p]);
            }
        }
    }
}

} // verus!
