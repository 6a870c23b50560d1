//! An unordered fixed-capacity array implementation of a min-heap.

use super::MinHeap;
use crate::sorting::exchange;
use crate::symbol_table::KeyT;
use core::cmp::Ordering;
use vstd::multiset::Multiset;
use vstd::prelude::*;

verus! {

broadcast use vstd::seq_lib::group_to_multiset_ensures;

/// An unordered fixed-capacity array implementation of a min-heap.
///
/// Items are pushed to the end of the array in O(1); peeking and popping
/// scan linearly for the smallest entry in O(n).
pub struct MinHeapUnorderedArr<T: KeyT, const CAPACITY: usize> {
    arr: Vec<T>,
}

impl<T: KeyT, const CAPACITY: usize> MinHeapUnorderedArr<T, CAPACITY> {
    #[verifier::type_invariant]
    spec fn wf(self) -> bool {
        self.arr.len() <= CAPACITY
    }

    pub fn new() -> (q: Self)
        ensures
            q.items() == Multiset::<T>::empty(),
    {
        let q = MinHeapUnorderedArr { arr: Vec::new() };
        proof {
            assert(q.arr@.to_multiset() =~= Multiset::<T>::empty());
        }
        q
    }

    /// The index of a minimum entry (`None` if the queue is empty).
    fn get_min_i(&self) -> (r: Option<usize>)
        ensures
            match r {
                Some(i) => i < self.arr.len() && forall|k: int|
                    0 <= k < self.arr.len() ==> self.arr@[i as int].le(#[trigger] self.arr@[k]),
                None => self.arr.len() == 0,
            },
    {
        if self.arr.len() == 0 {
            return None;
        }
        let mut min_i: usize = 0;
        let mut i: usize = 1;
        proof {
            T::le_refl(self.arr@[0]);
        }
        while i < self.arr.len()
            invariant
                min_i < i <= self.arr.len() || (min_i == 0 && i <= self.arr.len()),
                forall|k: int|
                    0 <= k < i ==> self.arr@[min_i as int].le(#[trigger] self.arr@[k]),
            decreases self.arr.len() - i,
        {
            let smaller = match self.arr[i].key_cmp(&self.arr[min_i]) {
                Ordering::Less => true,
                _ => false,
            };
            if smaller {
                proof {
                    assert forall|k: int| 0 <= k < i + 1 implies self.arr@[i as int].le(
                        #[trigger] self.arr@[k],
                    ) by {
                        if k == i {
                            T::le_refl(self.arr@[k]);
                        } else {
                            T::le_trans(
                                self.arr@[i as int],
                                self.arr@[min_i as int],
                                self.arr@[k],
                            );
                        }
                    }
                }
                min_i = i;
            } else {
                proof {
                    if self.arr@[i as int] == self.arr@[min_i as int] {
                        T::le_refl(self.arr@[i as int]);
                    }
                    assert(self.arr@[min_i as int].le(self.arr@[i as int]));
                }
            }
            i = i + 1;
        }
        Some(min_i)
    }
}

impl<T: KeyT, const CAPACITY: usize> MinHeap<T> for MinHeapUnorderedArr<T, CAPACITY> {
    closed spec fn items(&self) -> Multiset<T> {
        self.arr@.to_multiset()
    }

    open spec fn has_room(&self) -> bool {
        self.items().len() < CAPACITY
    }

    /// The array is unordered, so the entry just goes on the end, O(1).
    fn push(&mut self, item: T) -> (r: Result<(), String>) {
        proof {
            use_type_invariant(&*self);
        }
        let mut taken = MinHeapUnorderedArr { arr: Vec::new() };
        core::mem::swap(&mut taken, self);
        let MinHeapUnorderedArr { mut arr } = taken;
        if arr.len() >= CAPACITY {
            let mut restored = MinHeapUnorderedArr { arr };
            core::mem::swap(&mut restored, self);
            return Err("min heap full".to_string());
        }
        arr.push(item);
        let mut updated = MinHeapUnorderedArr { arr };
        core::mem::swap(&mut updated, self);
        Ok(())
    }

    /// Scan for the minimum, swap it with the last entry, and remove the
    /// last entry, so nothing needs to shift.
    fn pop(&mut self) -> (r: Option<T>) {
        proof {
            use_type_invariant(&*self);
        }
        let min_i = match self.get_min_i() {
            None => {
                return None;
            },
            Some(i) => i,
        };
        let ghost orig = self.arr@;
        let mut taken = MinHeapUnorderedArr { arr: Vec::new() };
        core::mem::swap(&mut taken, self);
        let MinHeapUnorderedArr { mut arr } = taken;
        let last = arr.len() - 1;
        exchange(&mut arr, min_i, last);
        let popped = arr.pop().unwrap();
        proof {
            assert(popped == orig[min_i as int]);
            let mid = orig.update(min_i as int, orig[last as int]).update(
                last as int,
                orig[min_i as int],
            );
            assert(mid =~= arr@.push(popped));
            assert(arr@.to_multiset() =~= orig.to_multiset().remove(popped)) by {
                assert(mid.to_multiset() == arr@.to_multiset().insert(popped));
                assert(orig.contains(popped));
            }
        }
        let mut updated = MinHeapUnorderedArr { arr };
        core::mem::swap(&mut updated, self);
        proof {
            assert(orig.contains(popped));
            assert forall|y: T| #[trigger] orig.to_multiset().contains(y) implies popped.le(
                y,
            ) by {
                assert(orig.contains(y));
                let k = choose|k: int| 0 <= k < orig.len() && orig[k] == y;
                assert(orig[min_i as int].le(orig[k]));
            }
        }
        Some(popped)
    }

    /// Scan for the minimum and hand out a reference to it.
    fn peek(&self) -> (r: Option<&T>) {
        match self.get_min_i() {
            None => {
                proof {
                    assert(self.arr@.to_multiset().len() == 0);
                }
                None
            },
            Some(min_i) => {
                proof {
                    assert(self.arr@.contains(self.arr@[min_i as int]));
                    assert forall|y: T| #[trigger] self.arr@.to_multiset().contains(
                        y,
                    ) implies self.arr@[min_i as int].le(y) by {
                        assert(self.arr@.contains(y));
                        let k = choose|k: int| 0 <= k < self.arr@.len() && self.arr@[k] == y;
                        assert(self.arr@[min_i as int].le(self.arr@[k]));
                    }
                }
                Some(&self.arr[min_i])
            },
        }
    }

    fn is_empty(&self) -> (r: bool) {
        self.arr.len() == 0
    }

    fn size(&self) -> (n: usize) {
        self.arr.len()
    }
}

} // verus!
