//! A binary-heap implementation for a priority queue.

use super::PriorityQueue;
use crate::sorting::exchange;
use crate::sorting::heap::{
    heap_le, in_subtree, lemma_subtree_min, lemma_subtree_total, sink,
};
use crate::symbol_table::KeyT;
use core::cmp::Ordering;
use vstd::multiset::Multiset;
use vstd::prelude::*;

verus! {

broadcast use vstd::seq_lib::group_to_multiset_ensures;

/// A binary min-heap implementation for a priority queue, in a
/// fixed-capacity array.
///
/// The array stores a tree in level order: each node's children follow it
/// at twice its index, and every parent is at most its children, so the
/// minimum always sits at the root. Pushing appends and swims the new
/// entry up; popping swaps the root with the last entry, removes it, and
/// sinks the new root down. Both take O(log n).
pub struct PriorityQueueBinaryHeap<T: KeyT, const CAPACITY: usize> {
    arr: Vec<T>,
}

impl<T: KeyT, const CAPACITY: usize> PriorityQueueBinaryHeap<T, CAPACITY> {
    #[verifier::type_invariant]
    spec fn wf(self) -> bool {
        self.arr.len() <= CAPACITY && heap_le(self.arr@, self.arr.len() as int)
    }

    pub fn new() -> (q: Self)
        ensures
            q.items() == Multiset::<T>::empty(),
    {
        let q = PriorityQueueBinaryHeap { arr: Vec::new() };
        proof {
            assert(q.arr@.to_multiset() =~= Multiset::<T>::empty());
        }
        q
    }
}

/// Swim the entry at position `i` up to its place: while it is smaller
/// than its parent, swap the two. On the way every other parent edge
/// holds, and the edge broken at `i` is covered by the grandparent bound.
fn swim<T: KeyT>(arr: &mut Vec<T>, i: usize)
    requires
        i < old(arr).len(),
        forall|k: int|
            1 <= k < old(arr).len() && k != i ==> #[trigger] old(arr)@[k / 2].le(old(arr)@[k]),
        forall|k: int|
            1 <= k < old(arr).len() && k / 2 == i && i >= 1 ==> old(arr)@[i as int / 2].le(
                #[trigger] old(arr)@[k],
            ),
    ensures
        final(arr).len() == old(arr).len(),
        final(arr)@.to_multiset() == old(arr)@.to_multiset(),
        heap_le(final(arr)@, final(arr).len() as int),
    decreases i,
{
    if i == 0 {
        return ;
    }
    let p = i / 2;
    let out_of_place = match arr[i].key_cmp(&arr[p]) {
        Ordering::Less => true,
        _ => false,
    };
    if !out_of_place {
        proof {
            if arr@[i as int] == arr@[p as int] {
                T::le_refl(arr@[i as int]);
            }
            assert(arr@[p as int].le(arr@[i as int]));
        }
        return ;
    }
    let ghost before = arr@;
    exchange(arr, i, p);
    proof {
        let mid = arr@;
        let n = before.len() as int;
        assert(before[i as int].le(before[p as int]) && before[i as int] != before[p as int]);
        assert forall|k: int| 1 <= k < n && k != p implies #[trigger] mid[k / 2].le(mid[k]) by {
            if k == i {
                assert(mid[k / 2] == before[i as int] && mid[k] == before[p as int]);
            } else if k / 2 == i {
                // a child of i: covered by the grandparent bound
                assert(mid[k] == before[k]);
                assert(mid[k / 2] == before[p as int]);
                assert(before[p as int].le(before[k]));
            } else if k / 2 == p {
                // the sibling of i under p: the moved-up entry is smaller
                assert(mid[k] == before[k]);
                assert(mid[k / 2] == before[i as int]);
                assert(before[p as int].le(before[k]));
                T::le_trans(before[i as int], before[p as int], before[k]);
            } else {
                assert(mid[k] == before[k] && mid[k / 2] == before[k / 2]);
            }
        }
        assert forall|k: int|
            1 <= k < n && k / 2 == p && p >= 1 implies mid[p as int / 2].le(
            #[trigger] mid[k],
        ) by {
            assert(mid[p as int / 2] == before[p as int / 2]);
            if k == i {
                assert(mid[k] == before[p as int]);
                assert(before[p as int / 2].le(before[p as int]));
            } else {
                assert(mid[k] == before[k]);
                assert(before[p as int].le(before[k]));
                T::le_trans(before[p as int / 2], before[p as int], before[k]);
            }
        }
    }
    swim(arr, p);
}

impl<T: KeyT, const CAPACITY: usize> PriorityQueue<T> for PriorityQueueBinaryHeap<T, CAPACITY> {
    closed spec fn items(&self) -> Multiset<T> {
        self.arr@.to_multiset()
    }

    open spec fn has_room(&self) -> bool {
        self.items().len() < CAPACITY
    }

    /// Append the item and swim it up to its correct position, O(log n).
    fn push(&mut self, item: T) -> (r: Result<(), String>) {
        proof {
            use_type_invariant(&*self);
        }
        let mut taken = PriorityQueueBinaryHeap { arr: Vec::new() };
        core::mem::swap(&mut taken, self);
        let PriorityQueueBinaryHeap { mut arr } = taken;
        if arr.len() >= CAPACITY {
            let mut restored = PriorityQueueBinaryHeap { arr };
            core::mem::swap(&mut restored, self);
            return Err("capacity full".to_string());
        }
        let last = arr.len();
        arr.push(item);
        swim(&mut arr, last);
        let mut updated = PriorityQueueBinaryHeap { arr };
        core::mem::swap(&mut updated, self);
        Ok(())
    }

    /// The minimum is the root. Swap it with the last entry, remove it,
    /// and sink the new root down to its place, O(log n).
    fn pop(&mut self) -> (r: Option<T>) {
        proof {
            use_type_invariant(&*self);
        }
        let ghost orig = self.arr@;
        let mut taken = PriorityQueueBinaryHeap { arr: Vec::new() };
        core::mem::swap(&mut taken, self);
        let PriorityQueueBinaryHeap { mut arr } = taken;
        if arr.len() == 0 {
            let mut restored = PriorityQueueBinaryHeap { arr };
            core::mem::swap(&mut restored, self);
            return None;
        }
        let last = arr.len() - 1;
        exchange(&mut arr, 0, last);
        let popped = arr.pop().unwrap();
        proof {
            assert(popped == orig[0]);
            let mid = orig.update(0, orig[last as int]).update(last as int, orig[0]);
            assert(mid =~= arr@.push(popped));
            assert(arr@.to_multiset() =~= orig.to_multiset().remove(popped)) by {
                assert(mid.to_multiset() == arr@.to_multiset().insert(popped));
                assert(orig.contains(orig[0]));
            }
            assert forall|k: int|
                1 <= k < arr.len() && in_subtree(0, k) && k != 0 && k / 2 != 0 implies #[trigger]
            arr@[k / 2].le(arr@[k]) by {
                assert(arr@[k] == orig[k] && arr@[k / 2] == orig[k / 2]);
            }
        }
        if arr.len() > 0 {
            let ghost pre_sink = arr@;
            let n = arr.len();
            sink(&mut arr, 0, n);
            proof {
                assert(pre_sink.subrange(0, n as int) =~= pre_sink);
                assert(arr@.subrange(0, n as int) =~= arr@);
                assert(arr@.to_multiset() == pre_sink.to_multiset());
                assert forall|k: int| 1 <= k < arr.len() implies #[trigger] arr@[k / 2].le(
                    arr@[k],
                ) by {
                    lemma_subtree_total(k);
                }
            }
        }
        let mut updated = PriorityQueueBinaryHeap { arr };
        core::mem::swap(&mut updated, self);
        proof {
            assert(orig.contains(popped));
            assert forall|y: T| #[trigger] orig.to_multiset().contains(y) implies popped.le(
                y,
            ) by {
                assert(orig.contains(y));
                let k = choose|k: int| 0 <= k < orig.len() && orig[k] == y;
                lemma_subtree_total(k);
                assert forall|j: int|
                    1 <= j < orig.len() && in_subtree(0, j) && j != 0 implies #[trigger] orig[j
                    / 2].le(orig[j]) by {}
                lemma_subtree_min(orig, orig.len() as int, 0, k);
            }
        }
        Some(popped)
    }

    /// The minimum is the root of the heap: the first entry.
    fn peek(&self) -> (r: Option<&T>) {
        proof {
            use_type_invariant(self);
        }
        if self.arr.len() == 0 {
            proof {
                assert(self.arr@.to_multiset().len() == 0);
            }
            return None;
        }
        proof {
            let s = self.arr@;
            assert(s.contains(s[0]));
            assert forall|y: T| #[trigger] s.to_multiset().contains(y) implies s[0].le(y) by {
                assert(s.contains(y));
                let k = choose|k: int| 0 <= k < s.len() && s[k] == y;
                lemma_subtree_total(k);
                assert forall|j: int|
                    1 <= j < s.len() && in_subtree(0, j) && j != 0 implies #[trigger] s[j / 2].le(
                    s[j],
                ) by {}
                lemma_subtree_min(s, s.len() as int, 0, k);
            }
        }
        Some(&self.arr[0])
    }

    fn is_empty(&self) -> (r: bool) {
        self.arr.len() == 0
    }

    fn size(&self) -> (n: usize) {
        self.arr.len()
    }
}

} // verus!
