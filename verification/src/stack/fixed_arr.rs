//! Stack implementation using a fixed-capacity array.

use super::Stack;
use vstd::prelude::*;

verus! {

/// Stack implementation backed by an array of fixed capacity `MAX_SIZE`.
///
/// We push elements onto the end of the array, and pop elements from the
/// end, both in O(1) time.
pub struct StackFixedArray<T, const MAX_SIZE: usize> {
    arr: Vec<T>,
}

impl<T, const MAX_SIZE: usize> StackFixedArray<T, MAX_SIZE> {
    pub fn new() -> (s: Self)
        ensures
            s.items() == Seq::<T>::empty(),
    {
        StackFixedArray { arr: Vec::new() }
    }
}

impl<T, const MAX_SIZE: usize> Stack<T> for StackFixedArray<T, MAX_SIZE> {
    closed spec fn items(&self) -> Seq<T> {
        self.arr@
    }

    open spec fn has_room(&self) -> bool {
        self.items().len() < MAX_SIZE
    }

    /// Adds the item to the end of the array in O(1) time.
    fn push(&mut self, item: T) -> (r: Result<(), String>) {
        if self.arr.len() >= MAX_SIZE {
            return Err("capacity full".to_string());
        }
        self.arr.push(item);
        Ok(())
    }

    /// Removes the last item in the array in O(1) time.
    fn pop(&mut self) -> (r: Option<T>) {
        if self.arr.len() == 0 {
            return None;
        }
        let item = self.arr.pop().unwrap();
        proof {
            assert(self.items() =~= old(self).items().drop_last());
        }
        Some(item)
    }

    /// Returns a reference to the last item in the array in O(1) time.
    fn peek(&self) -> (r: Option<&T>) {
        if self.arr.len() == 0 {
            return None;
        }
        Some(&self.arr[self.arr.len() - 1])
    }

    fn is_empty(&self) -> (r: bool) {
        self.arr.len() == 0
    }

    fn size(&self) -> (n: usize) {
        self.arr.len()
    }
}

} // verus!
