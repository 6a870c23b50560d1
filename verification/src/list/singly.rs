//! A singly linked list implementation of the list interface.

use super::List;
use vstd::prelude::*;

verus! {

type Link<T> = Option<Box<Node<T>>>;

struct Node<T> {
    item: T,
    next: Link<T>,
}

impl<T> Node<T> {
    fn new(item: T, next: Link<T>) -> (n: Node<T>)
        ensures
            n.item == item,
            n.next == next,
    {
        Node { item, next }
    }
}

/// The items held by a chain of nodes, head first.
spec fn link_items<T>(link: Link<T>) -> Seq<T>
    decreases link,
{
    match link {
        None => Seq::empty(),
        Some(node) => seq![node.item] + link_items(node.next),
    }
}

/// Hang `item` at the end of the chain.
fn append_link<T>(link: Link<T>, item: T) -> (r: Link<T>)
    ensures
        link_items(r) == link_items(link).push(item),
    decreases link,
{
    match link {
        None => {
            let r = Some(Box::new(Node::new(item, None)));
            proof {
                assert(link_items(r) =~= link_items(link).push(item));
            }
            r
        },
        Some(node) => {
            let mut node = node;
            let mut rest: Link<T> = None;
            core::mem::swap(&mut rest, &mut node.next);
            node.next = append_link(rest, item);
            let r = Some(node);
            proof {
                assert(link_items(r) =~= link_items(link).push(item));
            }
            r
        },
    }
}

/// Detach the last node of the chain: the remaining chain comes back
/// together with the detached item.
fn split_last<T>(node: Box<Node<T>>) -> (res: (Link<T>, T))
    ensures
        link_items(Some(node)).len() > 0,
        res.1 == link_items(Some(node)).last(),
        link_items(res.0) == link_items(Some(node)).drop_last(),
    decreases node,
{
    let ghost node0 = node;
    let mut node = node;
    let mut rest: Link<T> = None;
    core::mem::swap(&mut rest, &mut node.next);
    match rest {
        None => {
            proof {
                assert(link_items(None::<Box<Node<T>>>) =~= link_items(
                    Some(node0),
                ).drop_last());
            }
            (None, node.item)
        },
        Some(next) => {
            let (remaining, item) = split_last(next);
            node.next = remaining;
            let r = Some(node);
            proof {
                assert(link_items(r) =~= link_items(Some(node0)).drop_last());
                assert(item == link_items(Some(node0)).last());
            }
            (r, item)
        },
    }
}

/// A reference to the last item of the chain.
fn last_item<T>(node: &Node<T>) -> (r: &T)
    ensures
        link_items(Some(Box::new(*node))).len() > 0,
        *r == link_items(Some(Box::new(*node))).last(),
    decreases *node,
{
    match &node.next {
        None => &node.item,
        Some(next) => {
            let r = last_item(next);
            proof {
                assert(link_items(Some(Box::new(*node))) =~= seq![node.item] + link_items(
                    node.next,
                ));
                assert(node.next == Some(Box::new(**next)));
                assert(link_items(node.next).len() > 0);
                assert(link_items(Some(Box::new(*node))).last() == link_items(
                    node.next,
                ).last());
            }
            r
        },
    }
}

/// A singly linked list implementation of the list interface: a single
/// head link with a running size counter. The head end is O(1); reaching
/// the back end walks the whole chain.
pub struct SinglyLinkedList<T> {
    head: Link<T>,
    size: usize,
}

impl<T> SinglyLinkedList<T> {
    #[verifier::type_invariant]
    spec fn wf(self) -> bool {
        self.size == link_items(self.head).len()
    }

    pub fn new() -> (l: Self)
        ensures
            l.items() == Seq::<T>::empty(),
    {
        SinglyLinkedList { head: None, size: 0 }
    }

    /// Turn the list into a consuming iterator over its items.
    pub fn into_iter(self) -> (it: IntoIter<T>)
        ensures
            it.remaining() == self.items(),
    {
        IntoIter { list: self }
    }
}

impl<T> List<T> for SinglyLinkedList<T> {
    closed spec fn items(&self) -> Seq<T> {
        link_items(self.head)
    }

    /// Prepend in O(1): the new item becomes the head.
    fn push_front(&mut self, item: T) {
        proof {
            use_type_invariant(&*self);
        }
        let mut taken = SinglyLinkedList { head: None, size: 0 };
        core::mem::swap(&mut taken, self);
        let SinglyLinkedList { head, size } = taken;
        let mut updated = SinglyLinkedList {
            head: Some(Box::new(Node::new(item, head))),
            size: size + 1,
        };
        core::mem::swap(&mut updated, self);
    }

    /// Append by walking to the end of the chain, O(n).
    fn push_back(&mut self, item: T) {
        proof {
            use_type_invariant(&*self);
        }
        let mut taken = SinglyLinkedList { head: None, size: 0 };
        core::mem::swap(&mut taken, self);
        let SinglyLinkedList { head, size } = taken;
        let mut updated = SinglyLinkedList { head: append_link(head, item), size: size + 1 };
        core::mem::swap(&mut updated, self);
    }

    /// Remove and return the head item, O(1).
    fn pop_front(&mut self) -> (r: Option<T>) {
        proof {
            use_type_invariant(&*self);
        }
        let mut taken = SinglyLinkedList { head: None, size: 0 };
        core::mem::swap(&mut taken, self);
        let SinglyLinkedList { head, size } = taken;
        match head {
            None => {
                let mut restored = SinglyLinkedList { head: None, size };
                core::mem::swap(&mut restored, self);
                None
            },
            Some(old_head) => {
                let mut updated = SinglyLinkedList { head: old_head.next, size: size - 1 };
                core::mem::swap(&mut updated, self);
                proof {
                    assert(self.items() =~= old(self).items().drop_first());
                }
                Some(old_head.item)
            },
        }
    }

    /// Remove and return the last item by walking the whole chain, O(n).
    fn pop_back(&mut self) -> (r: Option<T>) {
        proof {
            use_type_invariant(&*self);
        }
        let mut taken = SinglyLinkedList { head: None, size: 0 };
        core::mem::swap(&mut taken, self);
        let SinglyLinkedList { head, size } = taken;
        match head {
            None => {
                let mut restored = SinglyLinkedList { head: None, size };
                core::mem::swap(&mut restored, self);
                None
            },
            Some(old_head) => {
                let (remaining, item) = split_last(old_head);
                let mut updated = SinglyLinkedList { head: remaining, size: size - 1 };
                core::mem::swap(&mut updated, self);
                Some(item)
            },
        }
    }

    /// A reference to the head item.
    fn peek_front(&self) -> (r: Option<&T>) {
        match &self.head {
            None => None,
            Some(head) => Some(&head.item),
        }
    }

    /// A reference to the last item, reached by walking the chain, O(n).
    fn peek_back(&self) -> (r: Option<&T>) {
        match &self.head {
            None => None,
            Some(head) => Some(last_item(head)),
        }
    }

    fn is_empty(&self) -> (r: bool) {
        proof {
            use_type_invariant(self);
        }
        self.size == 0
    }

    fn size(&self) -> (n: usize) {
        proof {
            use_type_invariant(self);
        }
        self.size
    }
}

/// A consuming iterator over a list's items, front first.
pub struct IntoIter<T> {
    list: SinglyLinkedList<T>,
}

impl<T> IntoIter<T> {
    /// The items still to be yielded, in the order they will come out.
    pub closed spec fn remaining(self) -> Seq<T> {
        self.list.items()
    }

    /// Yield the first of the pending items.
    pub fn next(&mut self) -> (r: Option<T>)
        ensures
            match r {
                Some(item) => old(self).remaining().len() > 0 && item == old(self).remaining()[0]
                    && final(self).remaining() == old(self).remaining().drop_first(),
                None => old(self).remaining().len() == 0 && final(self).remaining() == old(
                    self,
                ).remaining(),
            },
    {
        self.list.pop_front()
    }
}

} // verus!
