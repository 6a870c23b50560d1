//! Fixed-capacity ring-buffer implementation of a queue.

use super::Queue;
use vstd::arithmetic::div_mod::{lemma_mod_self_0, lemma_small_mod};
use vstd::prelude::*;

verus! {

/// Fixed-capacity array implementation of a queue.
///
/// An array of `CAPACITY` slots, allocated on the first push, holds the
/// items contiguously between a front index and a back index; when the
/// contiguous run reaches the end of the array it wraps around to the
/// start. Push, pop, and peek are all O(1).
pub struct QueueFixedArr<T, const CAPACITY: usize> {
    arr: Vec<Option<T>>,
    size: usize,
    front_i: usize,
    back_i: usize,
}

/// The slot that logically follows `front` by `n` places, wrapping at
/// `cap`.
spec fn wrap_at(cap: int, front: int, n: int) -> int {
    if front + n < cap {
        front + n
    } else {
        front + n - cap
    }
}

impl<T, const CAPACITY: usize> QueueFixedArr<T, CAPACITY> {
    #[verifier::type_invariant]
    spec fn wf(self) -> bool {
        &&& self.arr.len() == CAPACITY || (self.arr.len() == 0 && self.size == 0 && self.front_i
            == 0 && self.back_i == 0)
        &&& self.size <= CAPACITY
        &&& self.front_i < CAPACITY || self.front_i == 0
        &&& self.back_i == wrap_at(CAPACITY as int, self.front_i as int, self.size as int)
            || self.back_i == 0
        &&& self.arr.len() == CAPACITY ==> self.back_i == wrap_at(
            CAPACITY as int,
            self.front_i as int,
            self.size as int,
        )
        &&& forall|n: int|
            0 <= n < self.size ==> #[trigger] self.arr@[wrap_at(
                CAPACITY as int,
                self.front_i as int,
                n,
            )].is_some()
    }

    pub fn new() -> (q: Self)
        ensures
            q.items() == Seq::<T>::empty(),
    {
        QueueFixedArr { arr: Vec::new(), size: 0, front_i: 0, back_i: 0 }
    }
}

impl<T, const CAPACITY: usize> Queue<T> for QueueFixedArr<T, CAPACITY> {
    closed spec fn items(&self) -> Seq<T> {
        Seq::new(
            self.size as nat,
            |n: int| self.arr@[wrap_at(CAPACITY as int, self.front_i as int, n)].unwrap(),
        )
    }

    open spec fn has_room(&self) -> bool {
        self.items().len() < CAPACITY
    }

    fn push(&mut self, item: T) -> (r: Result<(), String>) {
        proof {
            use_type_invariant(&*self);
        }
        let mut taken = QueueFixedArr { arr: Vec::new(), size: 0, front_i: 0, back_i: 0 };
        core::mem::swap(&mut taken, self);
        let QueueFixedArr { mut arr, size, front_i, back_i } = taken;
        if size >= CAPACITY {
            let mut restored = QueueFixedArr { arr, size, front_i, back_i };
            core::mem::swap(&mut restored, self);
            return Err("capacity full".to_string());
        }
        // the backing slots are allocated on the first push
        #[verifier::loop_isolation(false)]
        while arr.len() < CAPACITY
            invariant
                arr.len() <= CAPACITY,
                arr@ == old(self).arr@ || old(self).arr.len() == 0,
            decreases CAPACITY - arr.len(),
        {
            arr.push(None);
        }
        proof {
            assert(back_i < CAPACITY);
            assert forall|n: int| 0 <= n < size implies #[trigger] arr@[wrap_at(
                CAPACITY as int,
                front_i as int,
                n,
            )].is_some() by {}
        }
        arr[back_i] = Some(item);
        let new_back = (back_i + 1) % CAPACITY;
        proof {
            if back_i + 1 < CAPACITY {
                lemma_small_mod((back_i + 1) as nat, CAPACITY as nat);
            } else {
                assert(back_i + 1 == CAPACITY);
                assert((back_i + 1) as int % CAPACITY as int == 0) by {
                    lemma_mod_self_0(CAPACITY as int);
                }
            }
            assert(new_back == wrap_at(CAPACITY as int, front_i as int, size + 1));
        }
        let mut updated = QueueFixedArr { arr, size: size + 1, front_i, back_i: new_back };
        core::mem::swap(&mut updated, self);
        proof {
            assert(self.items() =~= old(self).items().push(item));
        }
        Ok(())
    }

    fn pop(&mut self) -> (r: Option<T>) {
        proof {
            use_type_invariant(&*self);
        }
        let mut taken = QueueFixedArr { arr: Vec::new(), size: 0, front_i: 0, back_i: 0 };
        core::mem::swap(&mut taken, self);
        let QueueFixedArr { mut arr, size, front_i, back_i } = taken;
        if size == 0 {
            let mut restored = QueueFixedArr { arr, size, front_i, back_i };
            core::mem::swap(&mut restored, self);
            return None;
        }
        let popped = arr.remove(front_i);
        arr.insert(front_i, None);
        proof {
            assert(arr@ =~= old(self).arr@.update(front_i as int, None));
        }
        let new_front = (front_i + 1) % CAPACITY;
        proof {
            if front_i + 1 < CAPACITY {
                lemma_small_mod((front_i + 1) as nat, CAPACITY as nat);
            } else {
                assert(front_i + 1 == CAPACITY);
                assert((front_i + 1) as int % CAPACITY as int == 0) by {
                    lemma_mod_self_0(CAPACITY as int);
                }
            }
            assert(back_i == wrap_at(CAPACITY as int, new_front as int, size - 1));
            assert forall|n: int| 0 <= n < size - 1 implies #[trigger] arr@[wrap_at(
                CAPACITY as int,
                new_front as int,
                n,
            )].is_some() by {
                assert(wrap_at(CAPACITY as int, new_front as int, n) == wrap_at(
                    CAPACITY as int,
                    front_i as int,
                    n + 1,
                ));
            }
        }
        let mut updated = QueueFixedArr { arr, size: size - 1, front_i: new_front, back_i };
        core::mem::swap(&mut updated, self);
        proof {
            assert(popped == Some(old(self).items()[0]));
            assert forall|n: int| 0 <= n < size - 1 implies self.items()[n] == old(
                self,
            ).items().drop_first()[n] by {
                assert(wrap_at(CAPACITY as int, new_front as int, n) == wrap_at(
                    CAPACITY as int,
                    front_i as int,
                    n + 1,
                ));
            }
            assert(self.items() =~= old(self).items().drop_first());
        }
        popped
    }

    fn peek(&self) -> (r: Option<&T>) {
        proof {
            use_type_invariant(self);
        }
        if self.size == 0 {
            return None;
        }
        proof {
            assert(self.arr@[wrap_at(CAPACITY as int, self.front_i as int, 0)].is_some());
        }
        match &self.arr[self.front_i] {
            None => {
                proof {
                    assert(false);
                }
                None
            },
            Some(item) => {
                proof {
                    assert(*item == self.items()[0]);
                }
                Some(item)
            },
        }
    }

    fn is_empty(&self) -> (r: bool) {
        proof {
            use_type_invariant(self);
        }
        self.size == 0
    }

    fn size(&self) -> (n: usize) {
        proof {
            use_type_invariant(self);
        }
        self.size
    }
}

} // verus!
