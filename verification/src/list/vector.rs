//! A growable array with doubling capacity.

use vstd::prelude::*;

verus! {

/// A growable array that doubles its capacity whenever it runs out of
/// room, starting from a single slot.
pub struct Vector<T> {
    items: Vec<T>,
    cap: usize,
}

impl<T> Vector<T> {
    #[verifier::type_invariant]
    spec fn wf(self) -> bool {
        self.items.len() <= self.cap
    }

    /// The stored items, in order.
    pub closed spec fn items(&self) -> Seq<T> {
        self.items@
    }

    /// The capacity currently reserved.
    pub closed spec fn spec_capacity(&self) -> nat {
        self.cap as nat
    }

    pub fn new() -> (v: Self)
        ensures
            v.items() == Seq::<T>::empty(),
            v.spec_capacity() == 0,
    {
        Vector { items: Vec::new(), cap: 0 }
    }

    /// Double the capacity (from zero, reserve a single slot).
    fn grow(&mut self)
        requires
            old(self).spec_capacity() < usize::MAX / 2,
        ensures
            final(self).items() == old(self).items(),
            final(self).spec_capacity() == if old(self).spec_capacity() == 0 {
                1nat
            } else {
                2 * old(self).spec_capacity()
            },
    {
        proof {
            use_type_invariant(&*self);
        }
        let mut taken = Vector { items: Vec::new(), cap: 0 };
        core::mem::swap(&mut taken, self);
        let Vector { items, cap } = taken;
        let new_cap = if cap == 0 {
            1
        } else {
            2 * cap
        };
        let mut updated = Vector { items, cap: new_cap };
        core::mem::swap(&mut updated, self);
    }

    pub fn push(&mut self, item: T)
        requires
            old(self).items().len() < usize::MAX / 2,
        ensures
            final(self).items() == old(self).items().push(item),
    {
        proof {
            use_type_invariant(&*self);
        }
        if self.items.len() == self.capacity() {
            self.grow();
        }
        let mut taken = Vector { items: Vec::new(), cap: 0 };
        core::mem::swap(&mut taken, self);
        let Vector { mut items, cap } = taken;
        items.push(item);
        let mut updated = Vector { items, cap };
        core::mem::swap(&mut updated, self);
    }

    pub fn pop(&mut self) -> (r: Option<T>)
        ensures
            match r {
                Some(item) => old(self).items().len() > 0 && item == old(self).items().last()
                    && final(self).items() == old(self).items().drop_last(),
                None => old(self).items().len() == 0 && *final(self) == *old(self),
            },
    {
        proof {
            use_type_invariant(&*self);
        }
        if self.items.len() == 0 {
            return None;
        }
        let mut taken = Vector { items: Vec::new(), cap: 0 };
        core::mem::swap(&mut taken, self);
        let Vector { mut items, cap } = taken;
        let item = items.pop().unwrap();
        let mut updated = Vector { items, cap };
        core::mem::swap(&mut updated, self);
        Some(item)
    }

    /// Insert `item` so that it ends up at position `index`.
    pub fn insert(&mut self, index: usize, item: T)
        requires
            index <= old(self).items().len(),
            old(self).items().len() < usize::MAX / 2,
        ensures
            final(self).items() == old(self).items().insert(index as int, item),
    {
        proof {
            use_type_invariant(&*self);
        }
        if self.items.len() == self.capacity() {
            self.grow();
        }
        let mut taken = Vector { items: Vec::new(), cap: 0 };
        core::mem::swap(&mut taken, self);
        let Vector { mut items, cap } = taken;
        items.insert(index, item);
        let mut updated = Vector { items, cap };
        core::mem::swap(&mut updated, self);
    }

    /// Remove and return the item at position `index`.
    pub fn remove(&mut self, index: usize) -> (r: T)
        requires
            index < old(self).items().len(),
        ensures
            r == old(self).items()[index as int],
            final(self).items() == old(self).items().remove(index as int),
    {
        proof {
            use_type_invariant(&*self);
        }
        let mut taken = Vector { items: Vec::new(), cap: 0 };
        core::mem::swap(&mut taken, self);
        let Vector { mut items, cap } = taken;
        let item = items.remove(index);
        let mut updated = Vector { items, cap };
        core::mem::swap(&mut updated, self);
        item
    }

    pub fn is_empty(&self) -> (r: bool)
        ensures
            r == (self.items().len() == 0),
    {
        self.items.len() == 0
    }

    pub fn len(&self) -> (n: usize)
        ensures
            n == self.items().len(),
    {
        self.items.len()
    }

    pub fn capacity(&self) -> (n: usize)
        ensures
            n == self.spec_capacity(),
    {
        self.cap
    }

    /// A reference to the item at position `index`.
    pub fn get(&self, index: usize) -> (r: &T)
        requires
            index < self.items().len(),
        ensures
            *r == self.items()[index as int],
    {
        &self.items[index]
    }
}

} // verus!
