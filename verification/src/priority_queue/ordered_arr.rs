//! An ordered fixed-capacity array implementation for a priority queue.

use super::PriorityQueue;
use crate::search::binary_search::binary_search_insert_index_rev;
use crate::search::sorted_desc;
use crate::sorting::lemma_insert_multiset;
use crate::symbol_table::KeyT;
use vstd::multiset::Multiset;
use vstd::prelude::*;

verus! {

broadcast use vstd::seq_lib::group_to_multiset_ensures;

/// An ordered fixed-capacity array implementation for a priority queue.
///
/// The entries are kept in descending order, so the minimum sits at the
/// end: popping and peeking are O(1), at the cost of O(n) insertions.
pub struct PriorityQueueOrderedArr<T: KeyT, const CAPACITY: usize> {
    arr: Vec<T>,
}

impl<T: KeyT, const CAPACITY: usize> PriorityQueueOrderedArr<T, CAPACITY> {
    #[verifier::type_invariant]
    spec fn wf(self) -> bool {
        self.arr.len() <= CAPACITY && sorted_desc(self.arr@)
    }

    pub fn new() -> (q: Self)
        ensures
            q.items() == Multiset::<T>::empty(),
    {
        let q = PriorityQueueOrderedArr { arr: Vec::new() };
        proof {
            assert(q.arr@.to_multiset() =~= Multiset::<T>::empty());
        }
        q
    }
}

impl<T: KeyT, const CAPACITY: usize> PriorityQueue<T> for PriorityQueueOrderedArr<T, CAPACITY> {
    closed spec fn items(&self) -> Multiset<T> {
        self.arr@.to_multiset()
    }

    open spec fn has_room(&self) -> bool {
        self.items().len() < CAPACITY
    }

    /// Binary search finds the position that keeps the array sorted in
    /// O(log n); inserting there shifts the entries behind it, O(n).
    fn push(&mut self, item: T) -> (r: Result<(), String>) {
        proof {
            use_type_invariant(&*self);
        }
        let ghost arr0 = self.arr@;
        let mut taken = PriorityQueueOrderedArr { arr: Vec::new() };
        core::mem::swap(&mut taken, self);
        let PriorityQueueOrderedArr { mut arr } = taken;
        if arr.len() >= CAPACITY {
            let mut restored = PriorityQueueOrderedArr { arr };
            core::mem::swap(&mut restored, self);
            return Err("capacity full".to_string());
        }
        let i = binary_search_insert_index_rev(&arr, &item);
        arr.insert(i, item);
        proof {
            lemma_insert_multiset(arr0, i as int, item);
            let arr1 = arr@;
            assert(arr1 == arr0.insert(i as int, item));
            assert forall|p: int, q: int| 0 <= p <= q < arr1.len() implies #[trigger] arr1[
                q
            ].le(arr1[p]) by {
                assert(forall|k: int| 0 <= k < i ==> arr1[k] == arr0[k]);
                assert(forall|k: int| i < k < arr1.len() ==> arr1[k] == arr0[k - 1]);
                if p == q {
                    T::le_refl(arr1[p]);
                } else if q < i {
                    assert(arr0[q].le(arr0[p]));
                } else if p > i {
                    assert(arr0[q - 1].le(arr0[p - 1]));
                } else if p == i && q > i {
                    assert(arr0[q - 1].le(item));
                } else if q == i && p < i {
                    assert(item.le(arr0[p]));
                } else {
                    assert(p < i && q > i);
                    assert(arr0[q - 1].le(item));
                    assert(item.le(arr0[p]));
                    T::le_trans(arr1[q], item, arr1[p]);
                }
            }
        }
        let mut updated = PriorityQueueOrderedArr { arr };
        core::mem::swap(&mut updated, self);
        Ok(())
    }

    /// The array is descending, so the minimum is its last entry, O(1).
    fn pop(&mut self) -> (r: Option<T>) {
        proof {
            use_type_invariant(&*self);
        }
        let ghost orig = self.arr@;
        let mut taken = PriorityQueueOrderedArr { arr: Vec::new() };
        core::mem::swap(&mut taken, self);
        let PriorityQueueOrderedArr { mut arr } = taken;
        if arr.len() == 0 {
            let mut restored = PriorityQueueOrderedArr { arr };
            core::mem::swap(&mut restored, self);
            return None;
        }
        let popped = arr.pop().unwrap();
        proof {
            assert(orig =~= arr@.push(popped));
            assert(arr@.to_multiset() =~= orig.to_multiset().remove(popped)) by {
                assert(orig.to_multiset() == arr@.to_multiset().insert(popped));
                assert(orig.contains(orig[orig.len() - 1]));
            }
            assert forall|y: T| #[trigger] orig.to_multiset().contains(y) implies popped.le(
                y,
            ) by {
                assert(orig.contains(y));
                let k = choose|k: int| 0 <= k < orig.len() && orig[k] == y;
                assert(orig[orig.len() - 1].le(orig[k]));
            }
        }
        let mut updated = PriorityQueueOrderedArr { arr };
        core::mem::swap(&mut updated, self);
        Some(popped)
    }

    /// The minimum is the last entry of the descending array.
    fn peek(&self) -> (r: Option<&T>) {
        proof {
            use_type_invariant(self);
        }
        if self.arr.len() == 0 {
            proof {
                assert(self.arr@.to_multiset().len() == 0);
            }
            return None;
        }
        proof {
            let s = self.arr@;
            assert(s.contains(s[s.len() - 1]));
            assert forall|y: T| #[trigger] s.to_multiset().contains(y) implies s[s.len() - 1].le(
                y,
            ) by {
                assert(s.contains(y));
                let k = choose|k: int| 0 <= k < s.len() && s[k] == y;
                assert(s[s.len() - 1].le(s[k]));
            }
        }
        Some(&self.arr[self.arr.len() - 1])
    }

    fn is_empty(&self) -> (r: bool) {
        self.arr.len() == 0
    }

    fn size(&self) -> (n: usize) {
        self.arr.len()
    }
}

} // verus!
