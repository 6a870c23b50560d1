//! Last-in-first-out (LIFO) stacks.

pub mod fixed_arr;
pub mod linked_list;

pub use fixed_arr::StackFixedArray;
pub use linked_list::StackLinkedList;

use vstd::prelude::*;

verus! {

/// A last-in-first-out (LIFO) stack. Each implementation interprets itself
/// as the sequence `items()` with the top of the stack at the end;
/// `has_room()` says exactly when a push is accepted.
pub trait Stack<T>: Sized {
    /// The stored items, bottom of the stack first.
    spec fn items(&self) -> Seq<T>;

    /// True exactly when `push` returns `Ok`.
    spec fn has_room(&self) -> bool;

    fn push(&mut self, item: T) -> (r: Result<(), String>)
        ensures
            r.is_ok() <==> old(self).has_room(),
            r.is_ok() ==> final(self).items() == old(self).items().push(item),
            r.is_err() ==> *final(self) == *old(self),
    ;

    fn pop(&mut self) -> (r: Option<T>)
        ensures
            match r {
                Some(item) => old(self).items().len() > 0 && item == old(self).items().last()
                    && final(self).items() == old(self).items().drop_last(),
                None => old(self).items().len() == 0 && *final(self) == *old(self),
            },
    ;

    fn peek(&self) -> (r: Option<&T>)
        ensures
            match r {
                Some(item) => self.items().len() > 0 && *item == self.items().last(),
                None => self.items().len() == 0,
            },
    ;

    fn is_empty(&self) -> (r: bool)
        ensures
            r == (self.items().len() == 0),
    ;

    fn size(&self) -> (n: usize)
        ensures
            n == self.items().len(),
    ;
}

} // verus!
