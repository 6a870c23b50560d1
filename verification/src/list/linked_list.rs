//! A doubly ended list with insertion and removal at arbitrary positions.

use vstd::prelude::*;

verus! {

/// A doubly ended list over contiguous storage, with insertion and
/// removal at arbitrary positions.
pub struct LinkedList<T> {
    items: Vec<T>,
}

impl<T> LinkedList<T> {
    /// The stored items, front of the list first.
    pub closed spec fn items(&self) -> Seq<T> {
        self.items@
    }

    pub fn new() -> (l: Self)
        ensures
            l.items() == Seq::<T>::empty(),
    {
        LinkedList { items: Vec::new() }
    }

    pub fn push_front(&mut self, item: T)
        requires
            old(self).items().len() < usize::MAX,
        ensures
            final(self).items() == seq![item] + old(self).items(),
    {
        self.items.insert(0, item);
        proof {
            assert(self.items@ =~= seq![item] + old(self).items@);
        }
    }

    pub fn push_back(&mut self, item: T)
        requires
            old(self).items().len() < usize::MAX,
        ensures
            final(self).items() == old(self).items().push(item),
    {
        self.items.push(item);
    }

    /// Insert `item` so that it ends up at position `index`.
    pub fn insert(&mut self, index: usize, item: T)
        requires
            index <= old(self).items().len(),
            old(self).items().len() < usize::MAX,
        ensures
            final(self).items() == old(self).items().insert(index as int, item),
    {
        self.items.insert(index, item);
    }

    pub fn pop_front(&mut self) -> (r: Option<T>)
        ensures
            match r {
                Some(item) => old(self).items().len() > 0 && item == old(self).items()[0]
                    && final(self).items() == old(self).items().drop_first(),
                None => old(self).items().len() == 0 && *final(self) == *old(self),
            },
    {
        if self.items.len() == 0 {
            return None;
        }
        let item = self.items.remove(0);
        proof {
            assert(self.items@ =~= old(self).items@.drop_first());
        }
        Some(item)
    }

    pub fn pop_back(&mut self) -> (r: Option<T>)
        ensures
            match r {
                Some(item) => old(self).items().len() > 0 && item == old(self).items().last()
                    && final(self).items() == old(self).items().drop_last(),
                None => old(self).items().len() == 0 && *final(self) == *old(self),
            },
    {
        if self.items.len() == 0 {
            return None;
        }
        Some(self.items.pop().unwrap())
    }

    /// Remove and return the item at position `index`.
    pub fn remove(&mut self, index: usize) -> (r: T)
        requires
            index < old(self).items().len(),
        ensures
            r == old(self).items()[index as int],
            final(self).items() == old(self).items().remove(index as int),
    {
        self.items.remove(index)
    }

    pub fn peek_front(&self) -> (r: Option<&T>)
        ensures
            match r {
                Some(item) => self.items().len() > 0 && *item == self.items()[0],
                None => self.items().len() == 0,
            },
    {
        if self.items.len() == 0 {
            return None;
        }
        Some(&self.items[0])
    }

    pub fn peek_back(&self) -> (r: Option<&T>)
        ensures
            match r {
                Some(item) => self.items().len() > 0 && *item == self.items().last(),
                None => self.items().len() == 0,
            },
    {
        if self.items.len() == 0 {
            return None;
        }
        Some(&self.items[self.items.len() - 1])
    }

    pub fn is_empty(&self) -> (r: bool)
        ensures
            r == (self.items().len() == 0),
    {
        self.items.len() == 0
    }

    pub fn len(&self) -> (n: usize)
        ensures
            n == self.items().len(),
    {
        self.items.len()
    }

    /// A reference to the item at position `index`.
    pub fn get(&self, index: usize) -> (r: &T)
        requires
            index < self.items().len(),
        ensures
            *r == self.items()[index as int],
    {
        &self.items[index]
    }

    /// Turn the list into a consuming iterator over its items.
    pub fn into_iter(self) -> (it: IntoIter<T>)
        ensures
            it.remaining() == self.items(),
    {
        IntoIter { list: self }
    }
}

/// A consuming iterator over a list's items, front first.
pub struct IntoIter<T> {
    list: LinkedList<T>,
}

impl<T> IntoIter<T> {
    /// The items still to be yielded, in the order they will come out.
    pub closed spec fn remaining(self) -> Seq<T> {
        self.list.items()
    }

    /// Yield the first of the pending items.
    pub fn next(&mut self) -> (r: Option<T>)
        ensures
            match r {
                Some(item) => old(self).remaining().len() > 0 && item == old(self).remaining()[0]
                    && final(self).remaining() == old(self).remaining().drop_first(),
                None => old(self).remaining().len() == 0 && final(self).remaining() == old(
                    self,
                ).remaining(),
            },
    {
        self.list.pop_front()
    }
}

} // verus!
