//! An unbalanced binary search tree symbol table.

use super::{ascending, key_lt, lemma_lt_asym, lemma_lt_trans, KeyT, SymbolTable};
use crate::stack::{Stack, StackLinkedList};
use core::cmp::Ordering;
use vstd::prelude::*;

verus! {

type Link<K, V> = Option<Box<Node<K, V>>>;

pub struct Node<K, V> {
    key: K,
    val: V,
    left: Link<K, V>,
    right: Link<K, V>,
}

/// A binary search tree that stores key-value pairs.
///
/// A binary search tree is a binary tree with the constraint that for any
/// given node in the tree, all keys in the right subtree compare greater
/// than its key, and all keys in the left subtree compare less. If the
/// tree happens to be balanced, searching and inserting correspond to
/// binary search and take O(log n); in the worst case they degrade to
/// O(n). Unlike [`super::RedBlackBST`], nothing here rebalances, but
/// removal is fully supported.
pub struct BinarySearchTree<K: KeyT, V> {
    root: Link<K, V>,
    size: usize,
}

spec fn node_map<K: KeyT, V>(n: Node<K, V>) -> Map<K, V> {
    link_map(n.left).union_prefer_right(link_map(n.right)).insert(n.key, n.val)
}

/// The key-value pairs stored in a subtree.
spec fn link_map<K: KeyT, V>(link: Link<K, V>) -> Map<K, V>
    decreases link,
{
    match link {
        None => Map::empty(),
        Some(node) => link_map(node.left).union_prefer_right(link_map(node.right)).insert(
            node.key,
            node.val,
        ),
    }
}

/// The in-order key sequence of a subtree.
pub closed spec fn link_keys<K: KeyT, V>(link: Link<K, V>) -> Seq<K>
    decreases link,
{
    match link {
        None => Seq::empty(),
        Some(node) => link_keys(node.left) + seq![node.key] + link_keys(node.right),
    }
}

spec fn node_bst<K: KeyT, V>(n: Node<K, V>) -> bool {
    &&& link_bst(n.left)
    &&& link_bst(n.right)
    &&& forall|k: K| #[trigger] link_map(n.left).dom().contains(k) ==> key_lt(k, n.key)
    &&& forall|k: K| #[trigger] link_map(n.right).dom().contains(k) ==> key_lt(n.key, k)
}

/// The binary-search-tree ordering property.
spec fn link_bst<K: KeyT, V>(link: Link<K, V>) -> bool
    decreases link,
{
    match link {
        None => true,
        Some(node) => {
            &&& link_bst(node.left)
            &&& link_bst(node.right)
            &&& forall|k: K| #[trigger] link_map(node.left).dom().contains(k) ==> key_lt(k, node.key)
            &&& forall|k: K|
                #[trigger] link_map(node.right).dom().contains(k) ==> key_lt(node.key, k)
        },
    }
}

/// The keys of a subtree form a finite set with as many elements as the
/// in-order key sequence is long, and that sequence is strictly
/// ascending.
proof fn lemma_bst_key_count<K: KeyT, V>(link: Link<K, V>)
    requires
        link_bst(link),
    ensures
        link_map(link).dom().finite(),
        link_keys(link).len() == link_map(link).dom().len(),
        forall|k: K| #[trigger] link_keys(link).contains(k) <==> link_map(link).dom().contains(k),
        ascending(link_keys(link)),
    decreases link,
{
    match link {
        None => {
            assert(link_map(link).dom() =~= Set::<K>::empty());
            assert forall|k: K| #[trigger] link_keys(link).contains(k) implies false by {}
        },
        Some(node) => {
            lemma_bst_key_count(node.left);
            lemma_bst_key_count(node.right);
            let kl = link_keys(node.left);
            let kr = link_keys(node.right);
            let ks = link_keys(link);
            let a = link_map(node.left);
            let b = link_map(node.right);
            assert(ks == kl + seq![node.key] + kr);
            assert forall|k: K| #[trigger] a.dom().contains(k) implies !b.dom().contains(k) && k
                != node.key by {
                if b.dom().contains(k) {
                    lemma_lt_asym(k, node.key);
                }
            }
            assert(link_map(link).dom() =~= a.dom().union(b.dom()).insert(node.key));
            super::lemma_set_disjoint_union_len(a.dom(), b.dom());
            assert(!a.dom().union(b.dom()).contains(node.key));

            // membership: a key of the sequence is a key of the map and
            // conversely
            assert forall|k: K| #[trigger] ks.contains(k) implies a.dom().contains(k) || k
                == node.key || b.dom().contains(k) by {
                let i = choose|i: int| 0 <= i < ks.len() && ks[i] == k;
                if i < kl.len() {
                    assert(kl[i] == k);
                    assert(kl.contains(k));
                } else if i > kl.len() {
                    assert(kr[i - kl.len() - 1] == k);
                    assert(kr.contains(k));
                }
            }
            assert forall|k: K| a.dom().contains(k) || k == node.key || b.dom().contains(
                k,
            ) implies #[trigger] ks.contains(k) by {
                if a.dom().contains(k) {
                    assert(kl.contains(k));
                    let i = choose|i: int| 0 <= i < kl.len() && kl[i] == k;
                    assert(ks[i] == k);
                } else if k == node.key {
                    assert(ks[kl.len() as int] == k);
                } else {
                    assert(kr.contains(k));
                    let i = choose|i: int| 0 <= i < kr.len() && kr[i] == k;
                    assert(ks[kl.len() + 1 + i] == k);
                }
            }

            // strictly ascending: within each part by induction, across
            // parts through the node's key
            assert forall|i: int, j: int| 0 <= i < j < ks.len() implies key_lt(ks[i], ks[j]) by {
                let li = kl.len() as int;
                if j < li {
                    assert(key_lt(kl[i], kl[j]));
                } else if i < li && j == li {
                    assert(kl.contains(kl[i]));
                    assert(a.dom().contains(ks[i]));
                } else if i < li && j > li {
                    assert(kl.contains(kl[i]));
                    assert(kr.contains(kr[j - li - 1]));
                    assert(a.dom().contains(ks[i]));
                    assert(b.dom().contains(ks[j]));
                    lemma_lt_trans(ks[i], node.key, ks[j]);
                } else if i == li {
                    assert(kr.contains(kr[j - li - 1]));
                    assert(b.dom().contains(ks[j]));
                } else {
                    assert(key_lt(kr[i - li - 1], kr[j - li - 1]));
                }
            }
        },
    }
}

/// BST ordering: the in-order key sequence of any reachable tree is
/// strictly increasing and enumerates the keys of the tree's map exactly
/// once, so iteration visits the stored keys in strictly ascending order.
pub proof fn lemma_bst_in_order_keys_sorted<K: KeyT, V>(tree: BinarySearchTree<K, V>)
    requires
        tree.wf(),
    ensures
        ascending(tree.key_seq()),
        forall|k: K| #[trigger] tree.key_seq().contains(k) <==> tree@.dom().contains(k),
        tree.key_seq().len() == tree@.dom().len(),
{
    lemma_bst_key_count(tree.root);
}

impl<K: KeyT, V> View for BinarySearchTree<K, V> {
    type V = Map<K, V>;

    closed spec fn view(&self) -> Map<K, V> {
        link_map(self.root)
    }
}

impl<K: KeyT, V> BinarySearchTree<K, V> {
    /// The tree's internal well-formedness: the search ordering plus a
    /// size counter equal to the number of stored keys.
    #[verifier::type_invariant]
    pub closed spec fn wf(self) -> bool {
        &&& link_bst(self.root)
        &&& link_map(self.root).dom().finite()
        &&& self.size == link_map(self.root).dom().len()
    }

    /// The in-order key sequence of the tree.
    pub closed spec fn key_seq(self) -> Seq<K> {
        link_keys(self.root)
    }

    pub fn new() -> (tree: Self)
        ensures
            tree@ == Map::<K, V>::empty(),
    {
        BinarySearchTree { root: None, size: 0 }
    }

    /// Walk down until a matching key (update its value) or an empty child
    /// (hang the new node there).
    fn insert_link(link: Link<K, V>, node_to_insert: Node<K, V>) -> (r: Link<K, V>)
        requires
            link_bst(link),
            node_to_insert.left.is_none(),
            node_to_insert.right.is_none(),
        ensures
            r.is_some(),
            link_bst(r),
            link_map(r) == link_map(link).insert(node_to_insert.key, node_to_insert.val),
        decreases link,
    {
        let ghost key = node_to_insert.key;
        let ghost val = node_to_insert.val;
        match link {
            None => {
                let r = Some(Box::new(node_to_insert));
                proof {
                    assert(link_map(r) =~= link_map(link).insert(key, val));
                }
                r
            },
            Some(node) => {
                let mut node = node;
                let ghost node0 = *node;
                match node_to_insert.key.key_cmp(&node.key) {
                    Ordering::Equal => {
                        node.val = node_to_insert.val;
                        proof {
                            assert(!link_map(node0.left).dom().contains(key));
                            assert(!link_map(node0.right).dom().contains(key));
                            assert(link_map(Some(node)) =~= link_map(link).insert(key, val));
                        }
                        Some(node)
                    },
                    Ordering::Less => {
                        let mut child: Link<K, V> = None;
                        core::mem::swap(&mut child, &mut node.left);
                        node.left = Self::insert_link(child, node_to_insert);
                        proof {
                            if link_map(node0.right).dom().contains(key) {
                                lemma_lt_asym(key, node0.key);
                            }
                            assert forall|k: K| #[trigger]
                                link_map(node.left).dom().contains(k) implies key_lt(
                                k,
                                node.key,
                            ) by {}
                            assert(link_map(Some(node)) =~= link_map(link).insert(key, val));
                        }
                        Some(node)
                    },
                    Ordering::Greater => {
                        let mut child: Link<K, V> = None;
                        core::mem::swap(&mut child, &mut node.right);
                        node.right = Self::insert_link(child, node_to_insert);
                        proof {
                            if link_map(node0.left).dom().contains(key) {
                                lemma_lt_asym(node0.key, key);
                            }
                            assert forall|k: K| #[trigger]
                                link_map(node.right).dom().contains(k) implies key_lt(
                                node.key,
                                k,
                            ) by {}
                            assert(link_map(Some(node)) =~= link_map(link).insert(key, val));
                        }
                        Some(node)
                    },
                }
            },
        }
    }

    /// Pure recursive descent: compare, then go left, right, or stop.
    fn search_link<'a>(link: &'a Link<K, V>, key: K) -> (r: Option<&'a Node<K, V>>)
        requires
            link_bst(*link),
        ensures
            match r {
                Some(node) => link_map(*link).dom().contains(key) && node.key == key && node.val
                    == link_map(*link)[key],
                None => !link_map(*link).dom().contains(key),
            },
        decreases *link,
    {
        match link {
            None => None,
            Some(node) => match key.key_cmp(&node.key) {
                Ordering::Equal => Some(&**node),
                Ordering::Greater => {
                    proof {
                        if link_map(node.left).dom().contains(key) {
                            lemma_lt_asym(node.key, key);
                        }
                    }
                    Self::search_link(&node.right, key)
                },
                Ordering::Less => {
                    proof {
                        if link_map(node.right).dom().contains(key) {
                            lemma_lt_asym(key, node.key);
                        }
                    }
                    Self::search_link(&node.left, key)
                },
            },
        }
    }

    /// Detach the leftmost node of the subtree rooted at `node`: the
    /// remaining subtree comes back together with the detached node, which
    /// holds the smallest key. The detached node keeps nothing hanging off
    /// it; its right subtree, if any, takes its place in the remainder.
    fn find_successor(node: Node<K, V>) -> (res: (Link<K, V>, Node<K, V>))
        requires
            node_bst(node),
        ensures
            link_bst(res.0),
            node_map(node).dom().contains(res.1.key),
            res.1.val == node_map(node)[res.1.key],
            link_map(res.0) == node_map(node).remove(res.1.key),
            forall|k: K| #[trigger] node_map(node).dom().contains(k) ==> res.1.key.le(k),
            res.1.left.is_none(),
            res.1.right.is_none(),
        decreases node,
    {
        let ghost node0 = node;
        let mut node = node;
        let mut left: Link<K, V> = None;
        core::mem::swap(&mut left, &mut node.left);
        match left {
            None => {
                let mut rest: Link<K, V> = None;
                core::mem::swap(&mut rest, &mut node.right);
                proof {
                    assert(!link_map(node0.right).dom().contains(node0.key));
                    assert(link_map(node0.left) =~= Map::<K, V>::empty());
                    assert(link_map(rest) =~= node_map(node0).remove(node0.key));
                    assert forall|k: K| #[trigger] node_map(node0).dom().contains(
                        k,
                    ) implies node0.key.le(k) by {
                        if k == node0.key {
                            K::le_refl(k);
                        }
                    }
                }
                (rest, node)
            },
            Some(left_node) => {
                let (rest, successor) = Self::find_successor(*left_node);
                node.left = rest;
                proof {
                    let sk = successor.key;
                    assert(link_map(node0.left).dom().contains(sk));
                    assert(key_lt(sk, node0.key));
                    if link_map(node0.right).dom().contains(sk) {
                        lemma_lt_asym(sk, node0.key);
                    }
                    assert(!link_map(node0.right).dom().contains(sk));
                    assert(sk != node0.key);
                    assert(link_map(Some(Box::new(node))) =~= node_map(node0).remove(sk));
                    assert forall|k: K| #[trigger] node_map(node0).dom().contains(
                        k,
                    ) implies sk.le(k) by {
                        if k == node0.key {
                            assert(sk.le(k));
                        } else if link_map(node0.right).dom().contains(k) {
                            lemma_lt_trans(sk, node0.key, k);
                        }
                    }
                }
                (Some(Box::new(node)), successor)
            },
        }
    }

    /// Remove the node matching `key` from the subtree rooted at `node`.
    /// A removed node with two children is replaced by its successor: the
    /// leftmost node of its right subtree.
    fn delete_node(node: Node<K, V>, key: K) -> (res: (Link<K, V>, Option<V>))
        requires
            node_bst(node),
        ensures
            link_bst(res.0),
            match res.1 {
                Some(v) => node_map(node).dom().contains(key) && v == node_map(node)[key]
                    && link_map(res.0) == node_map(node).remove(key),
                None => !node_map(node).dom().contains(key) && res.0 == Some(Box::new(node)),
            },
        decreases node,
    {
        let ghost node0 = node;
        let mut node = node;
        match key.key_cmp(&node.key) {
            Ordering::Equal => {
                proof {
                    if link_map(node0.left).dom().contains(key) {
                        lemma_lt_asym(key, node0.key);
                    }
                    if link_map(node0.right).dom().contains(key) {
                        lemma_lt_asym(node0.key, key);
                    }
                }
                let mut right: Link<K, V> = None;
                core::mem::swap(&mut right, &mut node.right);
                match right {
                    None => {
                        proof {
                            assert(link_map(node.left) =~= node_map(node0).remove(key));
                        }
                        let mut rest: Link<K, V> = None;
                        core::mem::swap(&mut rest, &mut node.left);
                        (rest, Some(node.val))
                    },
                    Some(right_node) => {
                        let (rest, mut successor) = Self::find_successor(*right_node);
                        let ghost b = link_map(node0.right);
                        let ghost sk = successor.key;
                        let mut left: Link<K, V> = None;
                        core::mem::swap(&mut left, &mut node.left);
                        successor.left = left;
                        successor.right = rest;
                        proof {
                            assert(b.dom().contains(sk));
                            assert(key_lt(node0.key, sk));
                            assert forall|k: K| #[trigger]
                                link_map(successor.left).dom().contains(k) implies key_lt(
                                k,
                                sk,
                            ) by {
                                lemma_lt_trans(k, node0.key, sk);
                            }
                            assert forall|k: K| #[trigger]
                                link_map(successor.right).dom().contains(k) implies key_lt(
                                sk,
                                k,
                            ) by {
                                assert(b.dom().contains(k));
                                assert(sk.le(k));
                                assert(k != sk);
                            }
                            assert forall|k: K| #[trigger] link_map(node0.left).dom().contains(
                                k,
                            ) implies !b.remove(sk).dom().contains(k) by {
                                if b.dom().contains(k) {
                                    lemma_lt_asym(k, node0.key);
                                }
                            }
                            assert(link_map(Some(Box::new(successor))) =~= node_map(node0).remove(
                                key,
                            ));
                        }
                        (Some(Box::new(successor)), Some(node.val))
                    },
                }
            },
            Ordering::Less => {
                proof {
                    if link_map(node0.right).dom().contains(key) {
                        lemma_lt_asym(key, node0.key);
                    }
                }
                let mut left: Link<K, V> = None;
                core::mem::swap(&mut left, &mut node.left);
                match left {
                    None => {
                        proof {
                            assert(link_map(Some(Box::new(node))) =~= node_map(node0));
                        }
                        (Some(Box::new(node)), None)
                    },
                    Some(left_node) => {
                        let (rest, deleted) = Self::delete_node(*left_node, key);
                        node.left = rest;
                        proof {
                            if deleted.is_some() {
                                assert(link_map(Some(Box::new(node))) =~= node_map(node0).remove(key));
                            } else {
                                assert(link_map(Some(Box::new(node))) =~= node_map(node0));
                            }
                        }
                        (Some(Box::new(node)), deleted)
                    },
                }
            },
            Ordering::Greater => {
                proof {
                    if link_map(node0.left).dom().contains(key) {
                        lemma_lt_asym(node0.key, key);
                    }
                }
                let mut right: Link<K, V> = None;
                core::mem::swap(&mut right, &mut node.right);
                match right {
                    None => {
                        proof {
                            assert(link_map(Some(Box::new(node))) =~= node_map(node0));
                        }
                        (Some(Box::new(node)), None)
                    },
                    Some(right_node) => {
                        let (rest, deleted) = Self::delete_node(*right_node, key);
                        node.right = rest;
                        proof {
                            if deleted.is_some() {
                                assert(link_map(Some(Box::new(node))) =~= node_map(node0).remove(key));
                            } else {
                                assert(link_map(Some(Box::new(node))) =~= node_map(node0));
                            }
                        }
                        (Some(Box::new(node)), deleted)
                    },
                }
            },
        }
    }
}

impl<K: KeyT, V> SymbolTable<K, V> for BinarySearchTree<K, V> {
    open spec fn st_map(&self) -> Map<K, V> {
        self@
    }

    open spec fn put_room(&self, key: K) -> bool {
        self@.dom().len() < usize::MAX || self@.dom().contains(key)
    }

    open spec fn removal_supported(&self) -> bool {
        true
    }

    /// Add (or update) the key-value pair by descending to a match or an
    /// empty child; `size` grows only when a new node is created.
    fn put(&mut self, key: K, val: V) -> (r: Result<(), String>) {
        proof {
            use_type_invariant(&*self);
        }
        let mut taken = BinarySearchTree { root: None, size: 0 };
        core::mem::swap(&mut taken, self);
        let BinarySearchTree { root, size } = taken;

        let found = Self::search_link(&root, key).is_some();
        if !found && size == usize::MAX {
            let mut restored = BinarySearchTree { root, size };
            core::mem::swap(&mut restored, self);
            return Err("capacity full".to_string());
        }
        let node_to_insert = Node { key, val, left: None, right: None };
        let new_root = Self::insert_link(root, node_to_insert);
        let new_size = if found {
            size
        } else {
            size + 1
        };
        proof {
            if found {
                assert(link_map(new_root).dom() =~= link_map(old(self).root).dom());
            } else {
                assert(link_map(new_root).dom() =~= link_map(old(self).root).dom().insert(key));
            }
        }
        let mut updated = BinarySearchTree { root: new_root, size: new_size };
        core::mem::swap(&mut updated, self);
        Ok(())
    }

    /// Get a reference to the value for the associated key (`None` if the
    /// key is not stored).
    fn get(&self, key: K) -> (r: Option<&V>) {
        proof {
            use_type_invariant(self);
        }
        match Self::search_link(&self.root, key) {
            None => None,
            Some(node) => Some(&node.val),
        }
    }

    /// Remove the entry matching `key` and return its value (`None` if
    /// the key is not stored). The removed node is replaced by its
    /// in-order successor, the leftmost node of its right subtree.
    fn pop(&mut self, key: K) -> (r: Option<V>) {
        proof {
            use_type_invariant(&*self);
        }
        let mut taken = BinarySearchTree { root: None, size: 0 };
        core::mem::swap(&mut taken, self);
        let BinarySearchTree { root, size } = taken;
        match root {
            None => {
                proof {
                    assert(link_map(old(self).root) =~= Map::<K, V>::empty());
                }
                None
            },
            Some(root_node) => {
                let ghost rn = *root_node;
                let (rest, deleted) = Self::delete_node(*root_node, key);
                proof {
                    assert(node_map(rn) == link_map(old(self).root));
                }
                let new_size = if deleted.is_some() {
                    size - 1
                } else {
                    size
                };
                proof {
                    if deleted.is_some() {
                        assert(link_map(rest).dom() =~= link_map(old(self).root).dom().remove(
                            key,
                        ));
                    }
                }
                let mut updated = BinarySearchTree { root: rest, size: new_size };
                core::mem::swap(&mut updated, self);
                deleted
            },
        }
    }

    fn is_empty(&self) -> (r: bool) {
        proof {
            use_type_invariant(self);
            if self.size == 0 {
                vstd::set_lib::lemma_set_empty_equivalency_len(link_map(self.root).dom());
            }
        }
        self.size == 0
    }

    fn size(&self) -> (n: usize) {
        proof {
            use_type_invariant(self);
        }
        self.size
    }
}

// ---------------------------------------------------------------------------
// Ordered iteration with an explicit stack, as for the red-black tree.
// ---------------------------------------------------------------------------

/// The keys an iterator stack still has to yield: each stacked node
/// contributes its own key followed by its right subtree, top first.
spec fn stack_keys<K: KeyT, V>(items: Seq<&Node<K, V>>) -> Seq<K>
    decreases items.len(),
{
    if items.len() == 0 {
        Seq::empty()
    } else {
        seq![items.last().key] + link_keys(items.last().right) + stack_keys(items.drop_last())
    }
}

proof fn lemma_stack_keys_len<K: KeyT, V>(items: Seq<&Node<K, V>>)
    ensures
        stack_keys(items).len() >= items.len(),
    decreases items.len(),
{
    if items.len() > 0 {
        lemma_stack_keys_len(items.drop_last());
    }
}

/// An in-order iterator over the keys of a [`BinarySearchTree`], driven by
/// an explicit stack instead of recursion.
pub struct IntoIter<'a, K: KeyT, V> {
    stack: StackLinkedList<&'a Node<K, V>>,
}

impl<'a, K: KeyT, V> IntoIter<'a, K, V> {
    /// The keys still to be yielded, in the order they will come out.
    pub closed spec fn remaining(self) -> Seq<K> {
        stack_keys(self.stack.items())
    }

    /// The iterator never tracks more pending keys than fit in `usize`.
    pub closed spec fn wf(self) -> bool {
        stack_keys(self.stack.items()).len() <= usize::MAX
    }

    pub fn new(tree: &'a BinarySearchTree<K, V>) -> (it: Self)
        ensures
            it.wf(),
            it.remaining() == tree.key_seq(),
    {
        proof {
            use_type_invariant(tree);
            lemma_bst_key_count(tree.root);
            // the key count equals the stored size, so it fits in usize
            assert(link_keys(tree.root).len() <= usize::MAX);
        }
        let mut it = IntoIter { stack: StackLinkedList::new() };
        it.push_left_nodes(&tree.root);
        proof {
            assert(it.remaining() =~= tree.key_seq());
        }
        it
    }

    /// Push the given subtree's root and everything reachable along left
    /// children, so that the keys of the whole subtree come to the front
    /// of the pending key sequence.
    pub fn push_left_nodes(&mut self, link: &'a Link<K, V>)
        requires
            link_keys(*link).len() + old(self).remaining().len() <= usize::MAX,
        ensures
            final(self).wf(),
            final(self).remaining() == link_keys(*link) + old(self).remaining(),
    {
        let ghost goal = link_keys(*link) + self.remaining();
        let mut cur = link;
        #[verifier::loop_isolation(false)]
        loop
            invariant
                link_keys(*cur) + self.remaining() == goal,
                goal.len() <= usize::MAX,
            decreases *cur,
        {
            match cur {
                None => {
                    proof {
                        assert(self.remaining() =~= goal);
                    }
                    return ;
                },
                Some(node) => {
                    proof {
                        lemma_stack_keys_len(self.stack.items());
                        assert(link_keys(*cur).len() >= 1);
                        assert(self.remaining().len() <= goal.len() - 1);
                        assert(self.stack.items().len() < usize::MAX);
                    }
                    let ghost pre = self.stack.items();
                    self.stack.push(&**node).unwrap();
                    proof {
                        assert(self.stack.items().drop_last() =~= pre);
                        assert(self.remaining() =~= seq![node.key] + link_keys(node.right)
                            + stack_keys(pre));
                        assert(link_keys(node.left) + self.remaining() =~= goal);
                    }
                    cur = &node.left;
                },
            }
        }
    }

    /// Pop the next node, queue up its right subtree's left spine, and
    /// yield the popped key: the first of the pending keys.
    pub fn next(&mut self) -> (r: Option<&'a K>)
        requires
            old(self).wf(),
        ensures
            final(self).wf(),
            match r {
                Some(k) => old(self).remaining().len() > 0 && *k == old(self).remaining()[0]
                    && final(self).remaining() == old(self).remaining().drop_first(),
                None => old(self).remaining().len() == 0 && final(self).remaining() == old(
                    self,
                ).remaining(),
            },
    {
        match self.stack.pop() {
            None => None,
            Some(node) => {
                proof {
                    assert(old(self).remaining() =~= seq![node.key] + link_keys(node.right)
                        + stack_keys(self.stack.items()));
                }
                self.push_left_nodes(&node.right);
                proof {
                    assert(self.remaining() =~= old(self).remaining().drop_first());
                }
                Some(&node.key)
            },
        }
    }
}

} // verus!
