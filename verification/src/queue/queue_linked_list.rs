//! A singly linked list queue implementation.

use super::Queue;
use vstd::prelude::*;

verus! {

type Link<T> = Option<Box<Node<T>>>;

struct Node<T> {
    item: T,
    next: Link<T>,
}

impl<T> Node<T> {
    fn new(item: T, next: Link<T>) -> (n: Node<T>)
        ensures
            n.item == item,
            n.next == next,
    {
        Node { item, next }
    }
}

/// The items held by a chain of nodes, head first.
spec fn link_items<T>(link: Link<T>) -> Seq<T>
    decreases link,
{
    match link {
        None => Seq::empty(),
        Some(node) => seq![node.item] + link_items(node.next),
    }
}

/// A singly linked list queue implementation.
///
/// New items go to the end of the list and leave from the head, so the
/// head of the list is the front of the queue.
pub struct QueueLinkedList<T> {
    head: Link<T>,
    size: usize,
}

/// Hang `item` at the end of the chain.
fn append_link<T>(link: Link<T>, item: T) -> (r: Link<T>)
    ensures
        link_items(r) == link_items(link).push(item),
    decreases link,
{
    match link {
        None => {
            let r = Some(Box::new(Node::new(item, None)));
            proof {
                assert(link_items(r) =~= link_items(link).push(item));
            }
            r
        },
        Some(node) => {
            let mut node = node;
            let mut rest: Link<T> = None;
            core::mem::swap(&mut rest, &mut node.next);
            node.next = append_link(rest, item);
            let r = Some(node);
            proof {
                assert(link_items(r) =~= link_items(link).push(item));
            }
            r
        },
    }
}

impl<T> QueueLinkedList<T> {
    #[verifier::type_invariant]
    spec fn wf(self) -> bool {
        self.size == link_items(self.head).len()
    }

    pub fn new() -> (q: Self)
        ensures
            q.items() == Seq::<T>::empty(),
    {
        QueueLinkedList { head: None, size: 0 }
    }
}

impl<T> Queue<T> for QueueLinkedList<T> {
    closed spec fn items(&self) -> Seq<T> {
        link_items(self.head)
    }

    open spec fn has_room(&self) -> bool {
        self.items().len() < usize::MAX
    }

    /// Add the item to the end of the linked list.
    fn push(&mut self, item: T) -> (r: Result<(), String>) {
        proof {
            use_type_invariant(&*self);
        }
        let mut taken = QueueLinkedList { head: None, size: 0 };
        core::mem::swap(&mut taken, self);
        let QueueLinkedList { head, size } = taken;
        if size == usize::MAX {
            let mut restored = QueueLinkedList { head, size };
            core::mem::swap(&mut restored, self);
            return Err("capacity full".to_string());
        }
        let mut updated = QueueLinkedList { head: append_link(head, item), size: size + 1 };
        core::mem::swap(&mut updated, self);
        Ok(())
    }

    /// The next item out is the head of the list; the head moves to its
    /// successor.
    fn pop(&mut self) -> (r: Option<T>) {
        proof {
            use_type_invariant(&*self);
        }
        let mut taken = QueueLinkedList { head: None, size: 0 };
        core::mem::swap(&mut taken, self);
        let QueueLinkedList { head, size } = taken;
        match head {
            None => {
                let mut restored = QueueLinkedList { head: None, size };
                core::mem::swap(&mut restored, self);
                None
            },
            Some(old_head) => {
                let mut updated = QueueLinkedList { head: old_head.next, size: size - 1 };
                core::mem::swap(&mut updated, self);
                proof {
                    assert(self.items() =~= old(self).items().drop_first());
                }
                Some(old_head.item)
            },
        }
    }

    /// The next item out is the head of the list.
    fn peek(&self) -> (r: Option<&T>) {
        match &self.head {
            None => None,
            Some(head) => Some(&head.item),
        }
    }

    fn is_empty(&self) -> (r: bool) {
        proof {
            use_type_invariant(self);
        }
        self.size == 0
    }

    fn size(&self) -> (n: usize) {
        proof {
            use_type_invariant(self);
        }
        self.size
    }
}

} // verus!
