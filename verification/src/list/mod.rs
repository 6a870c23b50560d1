//! List data structures that hold a variable number of items.

pub mod doubly;
pub mod linked_list;
pub mod singly;
pub mod vector;

pub use doubly::DoublyLinkedList;
pub use linked_list::LinkedList;
pub use singly::SinglyLinkedList;
pub use vector::Vector;

use vstd::prelude::*;

verus! {

/// A list usable from both ends. Each implementation interprets itself
/// as the sequence `items()` with the front of the list first.
pub trait List<T>: Sized {
    /// The stored items, front of the list first.
    spec fn items(&self) -> Seq<T>;

    fn push_front(&mut self, item: T)
        requires
            old(self).items().len() < usize::MAX,
        ensures
            final(self).items() == seq![item] + old(self).items(),
    ;

    fn push_back(&mut self, item: T)
        requires
            old(self).items().len() < usize::MAX,
        ensures
            final(self).items() == old(self).items().push(item),
    ;

    fn pop_front(&mut self) -> (r: Option<T>)
        ensures
            match r {
                Some(item) => old(self).items().len() > 0 && item == old(self).items()[0]
                    && final(self).items() == old(self).items().drop_first(),
                None => old(self).items().len() == 0 && *final(self) == *old(self),
            },
    ;

    fn pop_back(&mut self) -> (r: Option<T>)
        ensures
            match r {
                Some(item) => old(self).items().len() > 0 && item == old(self).items().last()
                    && final(self).items() == old(self).items().drop_last(),
                None => old(self).items().len() == 0 && *final(self) == *old(self),
            },
    ;

    fn peek_front(&self) -> (r: Option<&T>)
        ensures
            match r {
                Some(item) => self.items().len() > 0 && *item == self.items()[0],
                None => self.items().len() == 0,
            },
    ;

    fn peek_back(&self) -> (r: Option<&T>)
        ensures
            match r {
                Some(item) => self.items().len() > 0 && *item == self.items().last(),
                None => self.items().len() == 0,
            },
    ;

    fn is_empty(&self) -> (r: bool)
        ensures
            r == (self.items().len() == 0),
    ;

    fn size(&self) -> (n: usize)
        ensures
            n == self.items().len(),
    ;
}

} // verus!
