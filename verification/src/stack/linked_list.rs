//! Stack implementation using a singly linked list.

use super::Stack;
use vstd::prelude::*;

verus! {

type Link<T> = Option<Box<Node<T>>>;

struct Node<T> {
    item: T,
    next: Link<T>,
}

impl<T> Node<T> {
    fn new(item: T, next: Link<T>) -> (n: Node<T>)
        ensures
            n.item == item,
            n.next == next,
    {
        Node { item, next }
    }
}

/// The items held by a chain of nodes, head first.
spec fn link_items<T>(link: Link<T>) -> Seq<T>
    decreases link,
{
    match link {
        None => Seq::empty(),
        Some(node) => seq![node.item] + link_items(node.next),
    }
}

/// Stack implementation using a singly linked list.
///
/// Pushing corresponds to inserting at the front of the list, and popping
/// corresponds to popping the front of the list. Both run in O(1) time.
pub struct StackLinkedList<T> {
    head: Link<T>,
    size: usize,
}

impl<T> StackLinkedList<T> {
    #[verifier::type_invariant]
    spec fn wf(self) -> bool {
        self.size == link_items(self.head).len()
    }

    pub fn new() -> (s: Self)
        ensures
            s.items() == Seq::<T>::empty(),
    {
        StackLinkedList { head: None, size: 0 }
    }
}

impl<T> Stack<T> for StackLinkedList<T> {
    /// The stack's items; the head of the list is the top of the stack, so
    /// the sequence (bottom first) is the reversed chain.
    closed spec fn items(&self) -> Seq<T> {
        link_items(self.head).reverse()
    }

    open spec fn has_room(&self) -> bool {
        self.items().len() < usize::MAX
    }

    fn push(&mut self, item: T) -> (r: Result<(), String>) {
        proof {
            use_type_invariant(&*self);
        }
        let mut taken = StackLinkedList { head: None, size: 0 };
        core::mem::swap(&mut taken, self);
        let StackLinkedList { head, size } = taken;
        if size == usize::MAX {
            let mut restored = StackLinkedList { head, size };
            core::mem::swap(&mut restored, self);
            return Err("capacity full".to_string());
        }
        let mut updated = StackLinkedList {
            head: Some(Box::new(Node::new(item, head))),
            size: size + 1,
        };
        core::mem::swap(&mut updated, self);
        proof {
            assert(self.items() =~= old(self).items().push(item));
        }
        Ok(())
    }

    fn pop(&mut self) -> (r: Option<T>) {
        proof {
            use_type_invariant(&*self);
        }
        let mut taken = StackLinkedList { head: None, size: 0 };
        core::mem::swap(&mut taken, self);
        let StackLinkedList { head, size } = taken;
        match head {
            None => {
                let mut restored = StackLinkedList { head: None, size };
                core::mem::swap(&mut restored, self);
                None
            },
            Some(head) => {
                let mut updated = StackLinkedList { head: head.next, size: size - 1 };
                core::mem::swap(&mut updated, self);
                proof {
                    assert(old(self).items().last() == head.item);
                    assert(self.items() =~= old(self).items().drop_last());
                }
                Some(head.item)
            },
        }
    }

    fn peek(&self) -> (r: Option<&T>) {
        match &self.head {
            None => None,
            Some(head) => Some(&head.item),
        }
    }

    fn is_empty(&self) -> (r: bool) {
        proof {
            use_type_invariant(self);
        }
        self.size == 0
    }

    fn size(&self) -> (n: usize) {
        proof {
            use_type_invariant(self);
        }
        self.size
    }
}

} // verus!
