//! Min-heaps: containers handing out their smallest item first.

pub mod ordered_arr;
pub mod unordered_arr;

pub use ordered_arr::MinHeapOrderedArr;
pub use unordered_arr::MinHeapUnorderedArr;

use crate::symbol_table::KeyT;
use vstd::multiset::Multiset;
use vstd::prelude::*;

verus! {

/// A min-heap hands out its smallest stored item first. Each
/// implementation interprets itself as the multiset `items()`;
/// `has_room()` says exactly when a push is accepted.
pub trait MinHeap<T: KeyT>: Sized {
    /// The stored items, with multiplicity.
    spec fn items(&self) -> Multiset<T>;

    /// True exactly when `push` returns `Ok`.
    spec fn has_room(&self) -> bool;

    fn push(&mut self, item: T) -> (r: Result<(), String>)
        ensures
            r.is_ok() <==> old(self).has_room(),
            r.is_ok() ==> final(self).items() == old(self).items().insert(item),
            r.is_err() ==> *final(self) == *old(self),
    ;

    fn pop(&mut self) -> (r: Option<T>)
        ensures
            match r {
                Some(item) => old(self).items().contains(item) && final(self).items() == old(
                    self,
                ).items().remove(item) && forall|y: T|
                    #[trigger] old(self).items().contains(y) ==> item.le(y),
                None => old(self).items().len() == 0 && *final(self) == *old(self),
            },
    ;

    fn peek(&self) -> (r: Option<&T>)
        ensures
            match r {
                Some(item) => self.items().contains(*item) && forall|y: T|
                    #[trigger] self.items().contains(y) ==> item.le(y),
                None => self.items().len() == 0,
            },
    ;

    fn is_empty(&self) -> (r: bool)
        ensures
            r == (self.items().len() == 0),
    ;

    fn size(&self) -> (n: usize)
        ensures
            n == self.items().len(),
    ;
}

} // verus!
