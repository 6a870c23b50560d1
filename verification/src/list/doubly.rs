//! A list with O(1) amortized access at the back and indexed storage.

use super::List;
use vstd::prelude::*;

verus! {

/// A doubly ended list over contiguous storage: both ends are reachable
/// directly, pushing or popping at the front shifts the items.
pub struct DoublyLinkedList<T> {
    items: Vec<T>,
}

impl<T> DoublyLinkedList<T> {
    pub fn new() -> (l: Self)
        ensures
            l.items() == Seq::<T>::empty(),
    {
        DoublyLinkedList { items: Vec::new() }
    }

    /// Turn the list into a consuming iterator over its items.
    pub fn into_iter(self) -> (it: IntoIter<T>)
        ensures
            it.remaining() == self.items(),
    {
        IntoIter { list: self }
    }
}

impl<T> List<T> for DoublyLinkedList<T> {
    closed spec fn items(&self) -> Seq<T> {
        self.items@
    }

    fn push_front(&mut self, item: T) {
        self.items.insert(0, item);
        proof {
            assert(self.items@ =~= seq![item] + old(self).items@);
        }
    }

    fn push_back(&mut self, item: T) {
        self.items.push(item);
    }

    fn pop_front(&mut self) -> (r: Option<T>) {
        if self.items.len() == 0 {
            return None;
        }
        let item = self.items.remove(0);
        proof {
            assert(self.items@ =~= old(self).items@.drop_first());
        }
        Some(item)
    }

    fn pop_back(&mut self) -> (r: Option<T>) {
        if self.items.len() == 0 {
            return None;
        }
        let item = self.items.pop().unwrap();
        Some(item)
    }

    fn peek_front(&self) -> (r: Option<&T>) {
        if self.items.len() == 0 {
            return None;
        }
        Some(&self.items[0])
    }

    fn peek_back(&self) -> (r: Option<&T>) {
        if self.items.len() == 0 {
            return None;
        }
        Some(&self.items[self.items.len() - 1])
    }

    fn is_empty(&self) -> (r: bool) {
        self.items.len() == 0
    }

    fn size(&self) -> (n: usize) {
        self.items.len()
    }
}

/// A consuming iterator over a list's items, front first.
pub struct IntoIter<T> {
    list: DoublyLinkedList<T>,
}

impl<T> IntoIter<T> {
    /// The items still to be yielded, in the order they will come out.
    pub closed spec fn remaining(self) -> Seq<T> {
        self.list.items()
    }

    /// Yield the first of the pending items.
    pub fn next(&mut self) -> (r: Option<T>)
        ensures
            match r {
                Some(item) => old(self).remaining().len() > 0 && item == old(self).remaining()[0]
                    && final(self).remaining() == old(self).remaining().drop_first(),
                None => old(self).remaining().len() == 0 && final(self).remaining() == old(
                    self,
                ).remaining(),
            },
    {
        self.list.pop_front()
    }
}

} // verus!
