//! A singly linked list with access to both ends.

use vstd::prelude::*;

verus! {

type Link<T> = Option<Box<Node<T>>>;

struct Node<T> {
    item: T,
    next: Link<T>,
}

impl<T> Node<T> {
    fn new(item: T, next: Link<T>) -> (n: Node<T>)
        ensures
            n.item == item,
            n.next == next,
    {
        Node { item, next }
    }
}

/// The items held by a chain of nodes, head first.
spec fn link_items<T>(link: Link<T>) -> Seq<T>
    decreases link,
{
    match link {
        None => Seq::empty(),
        Some(node) => seq![node.item] + link_items(node.next),
    }
}

/// Hang `item` at the end of the chain.
fn append_link<T>(link: Link<T>, item: T) -> (r: Link<T>)
    ensures
        link_items(r) == link_items(link).push(item),
    decreases link,
{
    match link {
        None => {
            let r = Some(Box::new(Node::new(item, None)));
            proof {
                assert(link_items(r) =~= link_items(link).push(item));
            }
            r
        },
        Some(node) => {
            let mut node = node;
            let mut rest: Link<T> = None;
            core::mem::swap(&mut rest, &mut node.next);
            node.next = append_link(rest, item);
            let r = Some(node);
            proof {
                assert(link_items(r) =~= link_items(link).push(item));
            }
            r
        },
    }
}

/// Detach the last node of the chain: the remaining chain comes back
/// together with the detached item.
fn split_last<T>(node: Box<Node<T>>) -> (res: (Link<T>, T))
    ensures
        link_items(Some(node)).len() > 0,
        res.1 == link_items(Some(node)).last(),
        link_items(res.0) == link_items(Some(node)).drop_last(),
    decreases node,
{
    let ghost node0 = node;
    let mut node = node;
    let mut rest: Link<T> = None;
    core::mem::swap(&mut rest, &mut node.next);
    match rest {
        None => {
            proof {
                assert(link_items(None::<Box<Node<T>>>) =~= link_items(
                    Some(node0),
                ).drop_last());
            }
            (None, node.item)
        },
        Some(next) => {
            let (remaining, item) = split_last(next);
            node.next = remaining;
            let r = Some(node);
            proof {
                assert(link_items(r) =~= link_items(Some(node0)).drop_last());
                assert(item == link_items(Some(node0)).last());
            }
            (r, item)
        },
    }
}

/// A reference to the last item of the chain.
fn last_item<T>(node: &Node<T>) -> (r: &T)
    ensures
        link_items(Some(Box::new(*node))).len() > 0,
        *r == link_items(Some(Box::new(*node))).last(),
    decreases *node,
{
    match &node.next {
        None => &node.item,
        Some(next) => {
            let r = last_item(next);
            proof {
                assert(link_items(Some(Box::new(*node))) =~= seq![node.item] + link_items(
                    node.next,
                ));
                assert(node.next == Some(Box::new(**next)));
                assert(link_items(node.next).len() > 0);
                assert(link_items(Some(Box::new(*node))).last() == link_items(
                    node.next,
                ).last());
            }
            r
        },
    }
}

/// A singly linked list holding its items behind a single head link, with
/// a running size counter.
///
/// The head end is O(1); reaching the back end walks the whole chain.
pub struct SinglyLinkedList<T> {
    head: Link<T>,
    size: usize,
}

impl<T> SinglyLinkedList<T> {
    #[verifier::type_invariant]
    spec fn wf(self) -> bool {
        self.size == link_items(self.head).len()
    }

    /// The stored items, front of the list first.
    pub closed spec fn items(&self) -> Seq<T> {
        link_items(self.head)
    }

    pub fn new() -> (l: Self)
        ensures
            l.items() == Seq::<T>::empty(),
    {
        SinglyLinkedList { head: None, size: 0 }
    }

    /// Prepend in O(1): the new item becomes the head.
    pub fn push_front(&mut self, item: T) -> (r: Result<(), String>)
        ensures
            r.is_ok() <==> old(self).items().len() < usize::MAX,
            r.is_ok() ==> final(self).items() == seq![item] + old(self).items(),
            r.is_err() ==> *final(self) == *old(self),
    {
        proof {
            use_type_invariant(&*self);
        }
        let mut taken = SinglyLinkedList { head: None, size: 0 };
        core::mem::swap(&mut taken, self);
        let SinglyLinkedList { head, size } = taken;
        if size == usize::MAX {
            let mut restored = SinglyLinkedList { head, size };
            core::mem::swap(&mut restored, self);
            return Err("capacity full".to_string());
        }
        let mut updated = SinglyLinkedList {
            head: Some(Box::new(Node::new(item, head))),
            size: size + 1,
        };
        core::mem::swap(&mut updated, self);
        Ok(())
    }

    /// Append by walking to the end of the chain, O(n).
    pub fn push_back(&mut self, item: T) -> (r: Result<(), String>)
        ensures
            r.is_ok() <==> old(self).items().len() < usize::MAX,
            r.is_ok() ==> final(self).items() == old(self).items().push(item),
            r.is_err() ==> *final(self) == *old(self),
    {
        proof {
            use_type_invariant(&*self);
        }
        let mut taken = SinglyLinkedList { head: None, size: 0 };
        core::mem::swap(&mut taken, self);
        let SinglyLinkedList { head, size } = taken;
        if size == usize::MAX {
            let mut restored = SinglyLinkedList { head, size };
            core::mem::swap(&mut restored, self);
            return Err("capacity full".to_string());
        }
        let mut updated = SinglyLinkedList { head: append_link(head, item), size: size + 1 };
        core::mem::swap(&mut updated, self);
        Ok(())
    }

    /// Remove and return the head item, O(1).
    pub fn pop_front(&mut self) -> (r: Option<T>)
        ensures
            match r {
                Some(item) => old(self).items().len() > 0 && item == old(self).items()[0]
                    && final(self).items() == old(self).items().drop_first(),
                None => old(self).items().len() == 0 && *final(self) == *old(self),
            },
    {
        proof {
            use_type_invariant(&*self);
        }
        let mut taken = SinglyLinkedList { head: None, size: 0 };
        core::mem::swap(&mut taken, self);
        let SinglyLinkedList { head, size } = taken;
        match head {
            None => {
                let mut restored = SinglyLinkedList { head: None, size };
                core::mem::swap(&mut restored, self);
                None
            },
            Some(old_head) => {
                let mut updated = SinglyLinkedList { head: old_head.next, size: size - 1 };
                core::mem::swap(&mut updated, self);
                proof {
                    assert(self.items() =~= old(self).items().drop_first());
                }
                Some(old_head.item)
            },
        }
    }

    /// Remove and return the last item by walking the whole chain, O(n).
    pub fn pop_back(&mut self) -> (r: Option<T>)
        ensures
            match r {
                Some(item) => old(self).items().len() > 0 && item == old(self).items().last()
                    && final(self).items() == old(self).items().drop_last(),
                None => old(self).items().len() == 0 && *final(self) == *old(self),
            },
    {
        proof {
            use_type_invariant(&*self);
        }
        let mut taken = SinglyLinkedList { head: None, size: 0 };
        core::mem::swap(&mut taken, self);
        let SinglyLinkedList { head, size } = taken;
        match head {
            None => {
                let mut restored = SinglyLinkedList { head: None, size };
                core::mem::swap(&mut restored, self);
                None
            },
            Some(old_head) => {
                let (remaining, item) = split_last(old_head);
                let mut updated = SinglyLinkedList { head: remaining, size: size - 1 };
                core::mem::swap(&mut updated, self);
                Some(item)
            },
        }
    }

    /// A reference to the head item.
    pub fn peek_front(&self) -> (r: Option<&T>)
        ensures
            match r {
                Some(item) => self.items().len() > 0 && *item == self.items()[0],
                None => self.items().len() == 0,
            },
    {
        match &self.head {
            None => None,
            Some(head) => Some(&head.item),
        }
    }

    /// A reference to the last item, reached by walking the chain, O(n).
    pub fn peek_back(&self) -> (r: Option<&T>)
        ensures
            match r {
                Some(item) => self.items().len() > 0 && *item == self.items().last(),
                None => self.items().len() == 0,
            },
    {
        match &self.head {
            None => None,
            Some(head) => Some(last_item(head)),
        }
    }

    pub fn is_empty(&self) -> (r: bool)
        ensures
            r == (self.items().len() == 0),
    {
        proof {
            use_type_invariant(self);
        }
        self.size == 0
    }

    pub fn size(&self) -> (n: usize)
        ensures
            n == self.items().len(),
    {
        proof {
            use_type_invariant(self);
        }
        self.size
    }

    /// Turn the list into a consuming iterator over its items.
    pub fn into_iter(self) -> (it: IntoIter<T>)
        ensures
            it.remaining() == self.items(),
    {
        IntoIter { list: self }
    }
}

/// A consuming iterator over a list's items, front first.
pub struct IntoIter<T> {
    list: SinglyLinkedList<T>,
}

impl<T> IntoIter<T> {
    /// The items still to be yielded, in the order they will come out.
    pub closed spec fn remaining(self) -> Seq<T> {
        self.list.items()
    }

    /// Yield the first of the pending items.
    pub fn next(&mut self) -> (r: Option<T>)
        ensures
            match r {
                Some(item) => old(self).remaining().len() > 0 && item == old(self).remaining()[0]
                    && final(self).remaining() == old(self).remaining().drop_first(),
                None => old(self).remaining().len() == 0 && final(self).remaining() == old(
                    self,
                ).remaining(),
            },
    {
        self.list.pop_front()
    }
}

} // verus!
