//! A left-leaning red-black binary search tree.

use super::{ascending, key_lt, lemma_lt_asym, lemma_lt_trans, KeyT, SymbolTable};
use crate::stack::{Stack, StackLinkedList};
use core::cmp::Ordering;
use vstd::arithmetic::mul::lemma_mul_upper_bound;
use vstd::arithmetic::power2::{lemma2_to64, lemma_pow2_adds, lemma_pow2_strictly_increases, pow2};
use vstd::prelude::*;

verus! {

type Link<K, V> = Option<Box<Node<K, V>>>;

pub struct Node<K, V> {
    key: K,
    val: V,
    left: Link<K, V>,
    right: Link<K, V>,
    is_red: bool,
}

/// A red-black binary search tree.
///
/// A red-black BST is an implementation of a 2-3 tree such that the
/// underlying data structure is just a BST, with the insert function doing
/// the heavy lifting to maintain balance. `is_red` on a node is the color
/// of the link from the node's parent to the node; the tree keeps every
/// red link leaning left, never two red links in a row, and the same
/// number of black links on every path from the root down to an empty
/// child, which bounds the height logarithmically in the size.
pub struct RedBlackBST<K: KeyT, V> {
    root: Link<K, V>,
    size: usize,
}

// ---------------------------------------------------------------------------
// The abstract view of a subtree: the map of stored key-value pairs and the
// in-order key sequence, plus the color and balance bookkeeping that the
// red-black invariants are stated over.
// ---------------------------------------------------------------------------

/// The key-value pairs stored below (and at) a node.
spec fn node_map<K: KeyT, V>(n: Node<K, V>) -> Map<K, V> {
    link_map(n.left).union_prefer_right(link_map(n.right)).insert(n.key, n.val)
}

/// The key-value pairs stored in a subtree.
spec fn link_map<K: KeyT, V>(link: Link<K, V>) -> Map<K, V>
    decreases link,
{
    match link {
        None => Map::empty(),
        Some(node) => link_map(node.left).union_prefer_right(link_map(node.right)).insert(
            node.key,
            node.val,
        ),
    }
}

/// The in-order key sequence of a subtree.
pub closed spec fn link_keys<K: KeyT, V>(link: Link<K, V>) -> Seq<K>
    decreases link,
{
    match link {
        None => Seq::empty(),
        Some(node) => link_keys(node.left) + seq![node.key] + link_keys(node.right),
    }
}

/// The color of a link; empty links count as black.
spec fn is_red<K: KeyT, V>(link: Link<K, V>) -> bool {
    match link {
        None => false,
        Some(node) => node.is_red,
    }
}

/// 1 for a black link, 0 for a red one; black heights sum these.
spec fn black_count<K: KeyT, V>(link: Link<K, V>) -> nat {
    if is_red(link) {
        0
    } else {
        1
    }
}

/// The number of black links crossed walking from a node down its left
/// spine to an empty child, not counting the node's own incoming link. In
/// a well-formed tree every path from the node to an empty child crosses
/// this many black links.
spec fn node_bh<K: KeyT, V>(n: Node<K, V>) -> nat {
    link_bh(n.left) + black_count(n.left)
}

spec fn link_bh<K: KeyT, V>(link: Link<K, V>) -> nat
    decreases link,
{
    match link {
        None => 0,
        Some(node) => link_bh(node.left) + black_count(node.left),
    }
}

/// Black height of a subtree counting the color of its own incoming link.
/// Insertion preserves this quantity exactly.
spec fn ebh<K: KeyT, V>(link: Link<K, V>) -> nat {
    link_bh(link) + black_count(link)
}

spec fn node_ebh<K: KeyT, V>(n: Node<K, V>) -> nat {
    node_bh(n) + if n.is_red {
        0nat
    } else {
        1nat
    }
}

/// The binary-search-tree ordering property at one node: all keys in the
/// left subtree compare less than the node's key, all keys in the right
/// subtree compare greater, recursively.
spec fn node_bst<K: KeyT, V>(n: Node<K, V>) -> bool {
    &&& link_bst(n.left)
    &&& link_bst(n.right)
    &&& forall|k: K| #[trigger] link_map(n.left).dom().contains(k) ==> key_lt(k, n.key)
    &&& forall|k: K| #[trigger] link_map(n.right).dom().contains(k) ==> key_lt(n.key, k)
}

spec fn link_bst<K: KeyT, V>(link: Link<K, V>) -> bool
    decreases link,
{
    match link {
        None => true,
        Some(node) => {
            &&& link_bst(node.left)
            &&& link_bst(node.right)
            &&& forall|k: K| #[trigger] link_map(node.left).dom().contains(k) ==> key_lt(k, node.key)
            &&& forall|k: K|
                #[trigger] link_map(node.right).dom().contains(k) ==> key_lt(node.key, k)
        },
    }
}

/// The red-black invariants of a subtree: no right-leaning red link, no
/// red link directly below another red link, and the same black height on
/// both sides of every node.
spec fn link_rb<K: KeyT, V>(link: Link<K, V>) -> bool
    decreases link,
{
    match link {
        None => true,
        Some(node) => {
            &&& link_rb(node.left)
            &&& link_rb(node.right)
            &&& !is_red(node.right)
            &&& (node.is_red ==> !is_red(node.left))
            &&& ebh(node.left) == ebh(node.right)
        },
    }
}

/// Like `link_rb`, except that the node at the top is allowed to be red
/// while its left child is red too. Insertion hands such a subtree up to
/// its parent, whose own repair pass eliminates the red-red pair.
spec fn link_rb_almost<K: KeyT, V>(link: Link<K, V>) -> bool {
    match link {
        None => true,
        Some(node) => {
            &&& link_rb(node.left)
            &&& link_rb(node.right)
            &&& !is_red(node.right)
            &&& ebh(node.left) == ebh(node.right)
        },
    }
}

/// A fully well-formed subtree in particular satisfies the relaxed
/// root condition.
proof fn lemma_rb_almost<K: KeyT, V>(link: Link<K, V>)
    requires
        link_rb(link),
    ensures
        link_rb_almost(link),
{
    match link {
        None => {},
        Some(node) => {
            assert(link_rb(node.left));
        },
    }
}

/// Rotations reassociate a five-part subtree `(a, nk, b, mk, c)` without
/// touching its contents: grouping the parts around `nk` first or around
/// `mk` first builds the same map.
proof fn lemma_rotation_keeps_map<K: KeyT, V>(
    a: Map<K, V>,
    b: Map<K, V>,
    c: Map<K, V>,
    nk: K,
    nv: V,
    mk: K,
    mv: V,
)
    requires
        key_lt(nk, mk),
        forall|k: K| #[trigger] a.dom().contains(k) ==> key_lt(k, nk),
        forall|k: K| #[trigger] b.dom().contains(k) ==> key_lt(nk, k) && key_lt(k, mk),
        forall|k: K| #[trigger] c.dom().contains(k) ==> key_lt(mk, k),
    ensures
        a.union_prefer_right(b).insert(nk, nv).union_prefer_right(c).insert(mk, mv)
            == a.union_prefer_right(b.union_prefer_right(c).insert(mk, mv)).insert(nk, nv),
{
    assert forall|k: K| #[trigger] a.dom().contains(k) implies !b.dom().contains(k)
        && !c.dom().contains(k) && k != nk && k != mk by {
        if b.dom().contains(k) {
            lemma_lt_asym(k, nk);
        }
        lemma_lt_trans(k, nk, mk);
        if c.dom().contains(k) {
            lemma_lt_asym(k, mk);
        }
    }
    assert forall|k: K| #[trigger] b.dom().contains(k) implies !c.dom().contains(k) && k != nk
        && k != mk by {
        if c.dom().contains(k) {
            lemma_lt_asym(k, mk);
        }
    }
    assert forall|k: K| #[trigger] c.dom().contains(k) implies k != nk && k != mk by {
        lemma_lt_trans(nk, mk, k);
    }
    assert(a.union_prefer_right(b).insert(nk, nv).union_prefer_right(c).insert(mk, mv)
        =~= a.union_prefer_right(b.union_prefer_right(c).insert(mk, mv)).insert(nk, nv));
}

impl<K: KeyT, V> View for RedBlackBST<K, V> {
    type V = Map<K, V>;

    closed spec fn view(&self) -> Map<K, V> {
        link_map(self.root)
    }
}

impl<K: KeyT, V> RedBlackBST<K, V> {
    /// The tree's internal well-formedness: the binary-search-tree
    /// ordering, the red-black invariants, a black root link, and a size
    /// counter equal to the number of stored keys. Every reachable value
    /// of the type satisfies this, as Verus checks at each construction
    /// and mutation.
    #[verifier::type_invariant]
    pub closed spec fn wf(self) -> bool {
        &&& link_bst(self.root)
        &&& link_rb(self.root)
        &&& !is_red(self.root)
        &&& link_map(self.root).dom().finite()
        &&& self.size == link_map(self.root).dom().len()
    }

    /// The in-order key sequence of the tree.
    pub closed spec fn key_seq(self) -> Seq<K> {
        link_keys(self.root)
    }

    /// Whether the root's incoming link is black; it always is.
    pub closed spec fn root_is_black(self) -> bool {
        !is_red(self.root)
    }

    pub fn new() -> (tree: Self)
        ensures
            tree@ == Map::<K, V>::empty(),
    {
        RedBlackBST { root: None, size: 0 }
    }

    /// Given a node n whose right link is red (and whose left link is
    /// black), rotate the structure so that the red link leans left: the
    /// right child r becomes the local root, n becomes r's left child and
    /// r's old left subtree becomes n's right subtree. r inherits n's
    /// incoming-link color and n's incoming link turns red. The returned
    /// link replaces the one that pointed to n.
    fn rotate_left(n: Node<K, V>) -> (r: Link<K, V>)
        requires
            is_red(n.right),
            !is_red(n.left),
            node_bst(n),
            link_rb(n.left),
            link_rb(n.right),
            ebh(n.left) == ebh(n.right),
        ensures
            r.is_some(),
            is_red(r) == n.is_red,
            link_map(r) == node_map(n),
            link_bst(r),
            link_rb_almost(r),
            !is_red(r) ==> link_rb(r),
            ebh(r) == node_ebh(n),
            // the former right child is promoted in place: n hangs off
            // its left on a red link, keeping n's old left subtree and
            // adopting the promoted node's old left subtree
            r.unwrap().key == n.right.unwrap().key,
            r.unwrap().val == n.right.unwrap().val,
            r.unwrap().right == n.right.unwrap().right,
            r.unwrap().left.is_some(),
            r.unwrap().left.unwrap().key == n.key,
            r.unwrap().left.unwrap().val == n.val,
            r.unwrap().left.unwrap().is_red,
            r.unwrap().left.unwrap().left == n.left,
            r.unwrap().left.unwrap().right == n.right.unwrap().left,
    {
        let ghost n0 = n;
        let mut n = n;
        let mut r = n.right.take().unwrap();

        r.is_red = n.is_red;
        n.is_red = true;

        n.right = r.left.take();
        r.left = Some(Box::new(n));

        proof {
            let m = *n0.right.unwrap();
            assert(link_map(n0.right).dom().contains(m.key));
            assert(key_lt(n0.key, m.key));
            assert forall|k: K| #[trigger] link_map(m.left).dom().contains(k) implies key_lt(
                n0.key,
                k,
            ) && key_lt(k, m.key) by {
                assert(link_map(n0.right).dom().contains(k));
            }
            assert forall|k: K| #[trigger] link_map(m.right).dom().contains(k) implies key_lt(
                m.key,
                k,
            ) by {}
            lemma_rotation_keeps_map(
                link_map(n0.left),
                link_map(m.left),
                link_map(m.right),
                n0.key,
                n0.val,
                m.key,
                m.val,
            );
            // The rebuilt local root r: its left child holds (A, n.key, B)
            // and its right child C, for the same five parts the input held
            // as (A, n.key, (B, m.key, C)).
            assert(link_map(n0.right) == link_map(m.left).union_prefer_right(
                link_map(m.right),
            ).insert(m.key, m.val));
            assert(link_map(r.left) == link_map(n0.left).union_prefer_right(
                link_map(m.left),
            ).insert(n0.key, n0.val));
            assert(link_map(Some(r)) == link_map(r.left).union_prefer_right(
                link_map(m.right),
            ).insert(m.key, m.val));
            assert(link_map(Some(r)) == node_map(n0));
            assert forall|k: K| #[trigger]
                link_map(r.left).dom().contains(k) implies key_lt(k, r.key) by {
                if link_map(n0.left).dom().contains(k) {
                    lemma_lt_trans(k, n0.key, m.key);
                }
            }
            assert(link_bst(r.left));
            assert(link_bst(Some(r)));
            assert(link_bh(r.left) == link_bh(n0.left) + black_count(n0.left));
            assert(ebh(r.left) == ebh(m.left));
            assert(link_rb(r.left));
            assert(link_rb_almost(Some(r)));
        }
        Some(r)
    }

    /// Given a node n with two consecutive left links that are red, rotate
    /// the structure to the right: the left child m becomes the local
    /// root, n becomes m's right child and m's old right subtree becomes
    /// n's left subtree; then flip the colors at m. The incoming link is
    /// guaranteed to be black, because repairs run bottom up, so anything
    /// above is still a valid red-black BST and such a tree cannot have
    /// two red links in a row. The returned link replaces the one that
    /// pointed to n.
    fn rotate_right(n: Node<K, V>) -> (r: Link<K, V>)
        requires
            !n.is_red,
            is_red(n.left),
            is_red(n.left.unwrap().left),
            !is_red(n.right),
            node_bst(n),
            link_rb_almost(n.left),
            link_rb(n.right),
            ebh(n.left) == ebh(n.right),
        ensures
            r.is_some(),
            is_red(r),
            link_map(r) == node_map(n),
            link_bst(r),
            link_rb(r),
            link_rb_almost(r),
            ebh(r) == node_ebh(n),
            // the former left child is promoted in place and its colors
            // flipped: n becomes its black right child, keeping n's old
            // right subtree and adopting the promoted node's old right
            // subtree; the old left-left child turns black
            r.unwrap().key == n.left.unwrap().key,
            r.unwrap().val == n.left.unwrap().val,
            r.unwrap().left.is_some(),
            r.unwrap().left.unwrap().key == n.left.unwrap().left.unwrap().key,
            r.unwrap().left.unwrap().val == n.left.unwrap().left.unwrap().val,
            !r.unwrap().left.unwrap().is_red,
            r.unwrap().left.unwrap().left == n.left.unwrap().left.unwrap().left,
            r.unwrap().left.unwrap().right == n.left.unwrap().left.unwrap().right,
            r.unwrap().right.is_some(),
            r.unwrap().right.unwrap().key == n.key,
            r.unwrap().right.unwrap().val == n.val,
            !r.unwrap().right.unwrap().is_red,
            r.unwrap().right.unwrap().left == n.left.unwrap().right,
            r.unwrap().right.unwrap().right == n.right,
    {
        let ghost n0 = n;
        let mut n = n;
        let mut m = n.left.take().unwrap();
        n.left = m.right.take();
        n.is_red = true;
        m.right = Some(Box::new(n));

        proof {
            let m0 = *n0.left.unwrap();
            assert(link_map(n0.left).dom().contains(m0.key));
            assert(key_lt(m0.key, n0.key));
            assert forall|k: K| #[trigger] link_map(m0.right).dom().contains(k) implies key_lt(
                m0.key,
                k,
            ) && key_lt(k, n0.key) by {
                assert(link_map(n0.left).dom().contains(k));
            }
            assert forall|k: K| #[trigger] link_map(m0.left).dom().contains(k) implies key_lt(
                k,
                m0.key,
            ) by {}
            lemma_rotation_keeps_map(
                link_map(m0.left),
                link_map(m0.right),
                link_map(n0.right),
                m0.key,
                m0.val,
                n0.key,
                n0.val,
            );
            assert forall|k: K| #[trigger]
                link_map(m.right).dom().contains(k) implies key_lt(m.key, k) by {
                assert(link_map(m.right) == link_map(m0.right).union_prefer_right(
                    link_map(n0.right),
                ).insert(n0.key, n0.val));
                if link_map(n0.right).dom().contains(k) {
                    lemma_lt_trans(m0.key, n0.key, k);
                }
            }
        }
        Self::flip_colors(*m)
    }

    /// Given a node n where both the left and the right link are red, turn
    /// both child links black and the node's own incoming link red. The
    /// returned link replaces the one that pointed to n.
    fn flip_colors(n: Node<K, V>) -> (r: Link<K, V>)
        requires
            is_red(n.left),
            is_red(n.right),
            node_bst(n),
            link_rb(n.left),
            link_rb(n.right),
            ebh(n.left) == ebh(n.right),
        ensures
            r.is_some(),
            is_red(r),
            link_map(r) == node_map(n),
            link_bst(r),
            link_rb(r),
            link_rb_almost(r),
            ebh(r) == node_bh(n) + 1,
            // the shape is untouched: same node, same children, same
            // grandchild subtrees; only the three link colors toggle
            r.unwrap().key == n.key,
            r.unwrap().val == n.val,
            r.unwrap().left.is_some(),
            r.unwrap().left.unwrap().key == n.left.unwrap().key,
            r.unwrap().left.unwrap().val == n.left.unwrap().val,
            !r.unwrap().left.unwrap().is_red,
            r.unwrap().left.unwrap().left == n.left.unwrap().left,
            r.unwrap().left.unwrap().right == n.left.unwrap().right,
            r.unwrap().right.is_some(),
            r.unwrap().right.unwrap().key == n.right.unwrap().key,
            r.unwrap().right.unwrap().val == n.right.unwrap().val,
            !r.unwrap().right.unwrap().is_red,
            r.unwrap().right.unwrap().left == n.right.unwrap().left,
            r.unwrap().right.unwrap().right == n.right.unwrap().right,
    {
        let ghost n0 = n;
        let mut n = n;
        let mut left = n.left.take().unwrap();
        let mut right = n.right.take().unwrap();
        left.is_red = false;
        right.is_red = false;
        n.left = Some(left);
        n.right = Some(right);
        n.is_red = true;

        proof {
            let l0 = *n0.left.unwrap();
            let r0 = *n0.right.unwrap();
            // Only colors changed: contents, ordering and black heights of
            // the children are untouched by the recoloring.
            assert(link_map(n.left) == link_map(n0.left));
            assert(link_map(n.right) == link_map(n0.right));
            assert(link_bst(n.left));
            assert(link_bst(n.right));
            assert(link_rb(n.left));
            assert(link_rb(n.right));
            assert(link_bh(n.left) == link_bh(n0.left));
            assert(link_bh(n.right) == link_bh(n0.right));
            assert(ebh(n.left) == link_bh(n0.left) + 1);
            assert(ebh(n.right) == link_bh(n0.right) + 1);
            assert(link_map(Some(Box::new(n))) == node_map(n0));
            assert(link_bst(Some(Box::new(n))));
            assert(link_rb(Some(Box::new(n))));
        }
        Some(Box::new(n))
    }

    /// True when the link is red; empty links count as black.
    fn link_is_red(link: &Link<K, V>) -> (b: bool)
        ensures
            b == is_red(*link),
    {
        match link {
            None => false,
            Some(node) => node.is_red,
        }
    }

    /// Recursive insertion: walk down to find a matching key (update its
    /// value in place) or an empty child (replace it by the new red node),
    /// then repair the red-black invariants bottom-up as the recursion
    /// unwinds. The returned subtree holds the old entries plus the new
    /// one, has the same black height as the input, and satisfies all
    /// red-black invariants except that its root link may be red with a
    /// red left child; the caller's own repair pass handles that.
    fn insert(link: Link<K, V>, node_to_insert: Node<K, V>) -> (r: Link<K, V>)
        requires
            link_bst(link),
            link_rb(link),
            node_to_insert.left.is_none(),
            node_to_insert.right.is_none(),
            node_to_insert.is_red,
        ensures
            r.is_some(),
            link_bst(r),
            link_map(r) == link_map(link).insert(node_to_insert.key, node_to_insert.val),
            link_rb_almost(r),
            !is_red(link) ==> link_rb(r),
            ebh(r) == ebh(link),
        decreases link,
    {
        let ghost key = node_to_insert.key;
        let ghost val = node_to_insert.val;
        match link {
            // we keep searching down the tree for an empty link to place
            // the new node (or until we find a match, in which case we
            // just update)
            None => {
                let r = Some(Box::new(node_to_insert));
                proof {
                    assert(link_map(r) =~= link_map(link).insert(key, val));
                }
                r
            },
            Some(node) => {
                let mut node = node;
                let ghost node0 = *node;
                // check if we need to go left, right, or we have a match
                let ord = node_to_insert.key.key_cmp(&node.key);
                match ord {
                    Ordering::Equal => {
                        node.val = node_to_insert.val;
                        proof {
                            if link_map(node0.left).dom().contains(key) {
                                lemma_lt_asym(node0.key, key);
                            }
                            assert(!link_map(node0.left).dom().contains(key));
                            assert(!link_map(node0.right).dom().contains(key));
                            assert(link_map(Some(node)) =~= link_map(link).insert(key, val));
                            assert(link_rb(Some(node)));
                            assert(link_rb_almost(Some(node)));
                            assert(link_bst(Some(node)));
                        }
                        return Some(node);
                    },
                    Ordering::Less => {
                        let mut child: Link<K, V> = None;
                        core::mem::swap(&mut child, &mut node.left);
                        node.left = Self::insert(child, node_to_insert);
                        proof {
                            if link_map(node0.right).dom().contains(key) {
                                lemma_lt_asym(key, node0.key);
                            }
                            assert(!link_map(node0.right).dom().contains(key));
                            assert forall|k: K| #[trigger]
                                link_map(node.left).dom().contains(k) implies key_lt(
                                k,
                                node.key,
                            ) by {}
                            assert(link_map(node.left).union_prefer_right(
                                link_map(node.right),
                            ).insert(node.key, node.val) =~= link_map(link).insert(key, val));
                            assert(link_rb_almost(node.left));
                            assert(link_rb(node.right) && !is_red(node.right));
                        }
                    },
                    Ordering::Greater => {
                        let mut child: Link<K, V> = None;
                        core::mem::swap(&mut child, &mut node.right);
                        node.right = Self::insert(child, node_to_insert);
                        proof {
                            if link_map(node0.left).dom().contains(key) {
                                lemma_lt_asym(node0.key, key);
                            }
                            assert(!link_map(node0.left).dom().contains(key));
                            assert forall|k: K| #[trigger]
                                link_map(node.right).dom().contains(k) implies key_lt(
                                node.key,
                                k,
                            ) by {}
                            assert(link_map(node.left).union_prefer_right(
                                link_map(node.right),
                            ).insert(node.key, node.val) =~= link_map(link).insert(key, val));
                            assert(link_rb(node.left));
                            lemma_rb_almost(node.left);
                            assert(link_rb_almost(node.right));
                        }
                    },
                }

                // If we inserted a new node, the red-black invariants may
                // have been violated in 3 possible ways:
                //
                //   1) both the left and the right link are red (flip the
                //      colors)
                //   2) two left red links in a row (rotate right, which
                //      also flips the colors)
                //   3) a right red link (rotate left)
                let left_is_red = Self::link_is_red(&node.left);
                let right_is_red = Self::link_is_red(&node.right);
                let left_left_is_red = match &node.left {
                    None => false,
                    Some(l) => Self::link_is_red(&l.left),
                };

                proof {
                    // The state every arm of the match above leaves behind:
                    // one child absorbed the insertion and kept its rooted
                    // black height, the other is untouched, and the only
                    // violations sit at this node's children.
                    assert(node.key == node0.key && node.is_red == node0.is_red);
                    assert(link_rb_almost(node.left) && link_rb(node.right));
                    assert(!is_red(node.right) || link_rb(node.left));
                    assert((is_red(node.left) && is_red(node.left.unwrap().left))
                        ==> !node.is_red);
                    assert((is_red(node.left) && is_red(node.right)) ==> !node.is_red);
                    assert(ebh(node.left) == ebh(node.right));
                    assert(ebh(node.left) == ebh(node0.left));
                }

                if left_is_red && right_is_red {
                    Self::flip_colors(*node)
                } else if left_is_red && left_left_is_red {
                    Self::rotate_right(*node)
                } else if right_is_red {
                    Self::rotate_left(*node)
                } else {
                    proof {
                        assert(link_rb(node.left));
                        assert(link_rb_almost(Some(node)));
                        assert(!node0.is_red ==> link_rb(Some(node)));
                    }
                    Some(node)
                }
            },
        }
    }

    /// Pure recursive descent: compare, then go left, right, or stop.
    fn search<'a>(link: &'a Link<K, V>, key: K) -> (r: Option<&'a Node<K, V>>)
        requires
            link_bst(*link),
        ensures
            match r {
                Some(node) => link_map(*link).dom().contains(key) && node.key == key && node.val
                    == link_map(*link)[key],
                None => !link_map(*link).dom().contains(key),
            },
        decreases *link,
    {
        match link {
            None => None,
            Some(node) => match key.key_cmp(&node.key) {
                Ordering::Equal => Some(&**node),
                Ordering::Greater => {
                    proof {
                        if link_map(node.left).dom().contains(key) {
                            lemma_lt_asym(node.key, key);
                        }
                    }
                    Self::search(&node.right, key)
                },
                Ordering::Less => {
                    proof {
                        if link_map(node.right).dom().contains(key) {
                            lemma_lt_asym(key, node.key);
                        }
                    }
                    Self::search(&node.left, key)
                },
            },
        }
    }
}

impl<K: KeyT, V> SymbolTable<K, V> for RedBlackBST<K, V> {
    open spec fn st_map(&self) -> Map<K, V> {
        self@
    }

    open spec fn put_room(&self, key: K) -> bool {
        self@.dom().len() < usize::MAX || self@.dom().contains(key)
    }

    open spec fn removal_supported(&self) -> bool {
        false
    }

    /// Add (or update) the key-value pair: recursive insertion followed by
    /// the bottom-up repair pass, after which the root's incoming link is
    /// forced black and `size` grows only if a new node was created.
    /// Insertion is refused only when a new key would push the count of
    /// stored keys past what `usize` can hold.
    fn put(&mut self, key: K, val: V) -> (r: Result<(), String>) {
        proof {
            use_type_invariant(&*self);
        }
        // Take the tree apart; it is reassembled in one piece below.
        let mut taken = RedBlackBST { root: None, size: 0 };
        core::mem::swap(&mut taken, self);
        let RedBlackBST { root, size } = taken;

        let found = Self::search(&root, key).is_some();
        if !found && size == usize::MAX {
            let mut restored = RedBlackBST { root, size };
            core::mem::swap(&mut restored, self);
            return Err("capacity full".to_string());
        }
        let node_to_insert = Node {
            key,
            val,
            left: None,
            right: None,
            is_red: true,  // a new node hangs on a red link
        };

        let new_root = Self::insert(root, node_to_insert);

        // the root is kept black since it is technically not part of a
        // 3-node
        let mut root_node = new_root.unwrap();
        root_node.is_red = false;
        let new_size = if found {
            size
        } else {
            size + 1
        };
        proof {
            assert(link_bst(Some(root_node)));
            assert(link_rb(Some(root_node)));
            assert(link_map(Some(root_node)) == link_map(old(self).root).insert(key, val));
            if found {
                assert(link_map(Some(root_node)).dom() =~= link_map(old(self).root).dom());
            } else {
                assert(link_map(Some(root_node)).dom() =~= link_map(old(self).root).dom().insert(
                    key,
                ));
            }
        }
        let mut updated = RedBlackBST { root: Some(root_node), size: new_size };
        core::mem::swap(&mut updated, self);
        Ok(())
    }

    /// Get a reference to the value for the associated key (`None` if the
    /// key is not stored).
    fn get(&self, key: K) -> (r: Option<&V>) {
        proof {
            use_type_invariant(self);
        }
        match Self::search(&self.root, key) {
            None => None,
            Some(node) => Some(&node.val),
        }
    }

    /// Rebalancing-aware removal is not implemented: the standard deletion
    /// algorithm for left-leaning red-black trees needs a further pair of
    /// repair primitives (move-red-left and move-red-right) that this tree
    /// does not have. `removal_supported()` is false, so no verified
    /// caller can reach this method; the gap is deliberate and documented
    /// rather than papered over with unbalancing removal.
    fn pop(&mut self, key: K) -> (r: Option<V>) {
        proof {
            assert(false);
        }
        None
    }

    fn is_empty(&self) -> (r: bool) {
        proof {
            use_type_invariant(self);
            if self.size == 0 {
                vstd::set_lib::lemma_set_empty_equivalency_len(link_map(self.root).dom());
            }
        }
        self.size == 0
    }

    fn size(&self) -> (n: usize) {
        proof {
            use_type_invariant(self);
        }
        self.size
    }
}

// ---------------------------------------------------------------------------
// The in-order key sequence of a well-formed subtree is strictly
// increasing and enumerates the stored keys exactly once.
// ---------------------------------------------------------------------------

/// In a subtree with the search-tree ordering, the in-order key sequence
/// is strictly ascending and holds exactly the keys of the subtree's map.
proof fn lemma_bst_keys<K: KeyT, V>(link: Link<K, V>)
    requires
        link_bst(link),
    ensures
        link_map(link).dom().finite(),
        link_keys(link).len() == link_map(link).dom().len(),
        forall|k: K| #[trigger] link_keys(link).contains(k) <==> link_map(link).dom().contains(k),
        ascending(link_keys(link)),
    decreases link,
{
    match link {
        None => {
            assert(link_map(link).dom() =~= Set::<K>::empty());
            assert forall|k: K| #[trigger] link_keys(link).contains(k) implies false by {}
        },
        Some(node) => {
            lemma_bst_keys(node.left);
            lemma_bst_keys(node.right);
            let kl = link_keys(node.left);
            let kr = link_keys(node.right);
            let ks = link_keys(link);
            let a = link_map(node.left);
            let b = link_map(node.right);
            assert(ks == kl + seq![node.key] + kr);

            // membership: a key of the sequence is a key of the map and
            // conversely
            assert forall|k: K| #[trigger] ks.contains(k) implies a.dom().contains(k) || k
                == node.key || b.dom().contains(k) by {
                let i = choose|i: int| 0 <= i < ks.len() && ks[i] == k;
                if i < kl.len() {
                    assert(kl[i] == k);
                    assert(kl.contains(k));
                } else if i > kl.len() {
                    assert(kr[i - kl.len() - 1] == k);
                    assert(kr.contains(k));
                }
            }
            assert forall|k: K| a.dom().contains(k) || k == node.key || b.dom().contains(
                k,
            ) implies #[trigger] ks.contains(k) by {
                if a.dom().contains(k) {
                    assert(kl.contains(k));
                    let i = choose|i: int| 0 <= i < kl.len() && kl[i] == k;
                    assert(ks[i] == k);
                } else if k == node.key {
                    assert(ks[kl.len() as int] == k);
                } else {
                    assert(kr.contains(k));
                    let i = choose|i: int| 0 <= i < kr.len() && kr[i] == k;
                    assert(ks[kl.len() + 1 + i] == k);
                }
            }
            assert(link_map(link).dom() =~= a.dom().union(b.dom()).insert(node.key));

            // the three parts are disjoint, so the lengths add up
            assert forall|k: K| #[trigger] a.dom().contains(k) implies !b.dom().contains(k) && k
                != node.key by {
                if b.dom().contains(k) {
                    lemma_lt_asym(k, node.key);
                }
            }
            super::lemma_set_disjoint_union_len(a.dom(), b.dom());
            assert(!a.dom().union(b.dom()).contains(node.key));
            assert(link_map(link).dom().len() == a.dom().len() + b.dom().len() + 1);

            // strictly ascending: within each part by induction, across
            // parts through the node's key
            assert forall|i: int, j: int| 0 <= i < j < ks.len() implies key_lt(ks[i], ks[j]) by {
                let li = kl.len() as int;
                if j < li {
                    assert(key_lt(kl[i], kl[j]));
                } else if i < li && j == li {
                    assert(kl.contains(kl[i]));
                    assert(a.dom().contains(ks[i]));
                } else if i < li && j > li {
                    assert(kl.contains(kl[i]));
                    assert(kr.contains(kr[j - li - 1]));
                    assert(a.dom().contains(ks[i]));
                    assert(b.dom().contains(ks[j]));
                    lemma_lt_trans(ks[i], node.key, ks[j]);
                } else if i == li {
                    assert(kr.contains(kr[j - li - 1]));
                    assert(b.dom().contains(ks[j]));
                } else {
                    assert(key_lt(kr[i - li - 1], kr[j - li - 1]));
                }
            }
        },
    }
}

/// Two strictly ascending sequences over the same set of keys are the
/// same sequence.
proof fn lemma_ascending_unique<K: KeyT>(s1: Seq<K>, s2: Seq<K>)
    requires
        ascending(s1),
        ascending(s2),
        forall|k: K| #[trigger] s1.contains(k) <==> s2.contains(k),
    ensures
        s1 == s2,
    decreases s1.len(),
{
    if s1.len() == 0 {
        if s2.len() > 0 {
            assert(s2.contains(s2[0]));
            assert(s1.contains(s2[0]));
            assert(false);
        }
        assert(s1 =~= s2);
    } else {
        assert(s1.contains(s1[0]));
        assert(s2.contains(s2[0]));
        assert(s2.contains(s1[0]));
        assert(s1.contains(s2[0]));
        let i = choose|i: int| 0 <= i < s2.len() && s2[i] == s1[0];
        let j = choose|j: int| 0 <= j < s1.len() && s1[j] == s2[0];
        if i > 0 && j > 0 {
            assert(key_lt(s2[0], s2[i]));
            assert(key_lt(s1[0], s1[j]));
            lemma_lt_asym(s1[0], s2[0]);
        }
        assert(s1[0] == s2[0]);
        let t1 = s1.subrange(1, s1.len() as int);
        let t2 = s2.subrange(1, s2.len() as int);
        assert forall|k: K| #[trigger] t1.contains(k) implies t2.contains(k) by {
            let p = choose|p: int| 0 <= p < t1.len() && t1[p] == k;
            assert(s1[p + 1] == k);
            assert(s1.contains(k));
            assert(key_lt(s1[0], s1[p + 1]));
            assert(s2.contains(k));
            let q = choose|q: int| 0 <= q < s2.len() && s2[q] == k;
            assert(q != 0);
            assert(t2[q - 1] == k);
        }
        assert forall|k: K| #[trigger] t2.contains(k) implies t1.contains(k) by {
            let p = choose|p: int| 0 <= p < t2.len() && t2[p] == k;
            assert(s2[p + 1] == k);
            assert(s2.contains(k));
            assert(key_lt(s2[0], s2[p + 1]));
            assert(s1.contains(k));
            let q = choose|q: int| 0 <= q < s1.len() && s1[q] == k;
            assert(q != 0);
            assert(t1[q - 1] == k);
        }
        lemma_ascending_unique(t1, t2);
        assert(s1 =~= seq![s1[0]] + t1);
        assert(s2 =~= seq![s2[0]] + t2);
        assert(s1 =~= s2);
    }
}

// ---------------------------------------------------------------------------
// Laws of the red-black tree, stated over its public view.
// ---------------------------------------------------------------------------

/// BST ordering: the in-order key sequence of any reachable tree is
/// strictly increasing and enumerates the keys of the tree's map exactly
/// once. Iteration yields this sequence, so iteration visits the stored
/// keys in strictly ascending order.
pub proof fn lemma_in_order_keys_sorted<K: KeyT, V>(tree: RedBlackBST<K, V>)
    requires
        tree.wf(),
    ensures
        ascending(tree.key_seq()),
        forall|k: K| #[trigger] tree.key_seq().contains(k) <==> tree@.dom().contains(k),
        tree.key_seq().len() == tree@.dom().len(),
{
    lemma_bst_keys(tree.root);
}

/// Idempotent structure under re-insertion of an existing key: a tree
/// whose map is the old map with an already-present key overwritten has
/// the same in-order key sequence as the old tree (so re-inserting an
/// existing key leaves the serialized key order unchanged).
pub proof fn lemma_reinsert_existing_key<K: KeyT, V>(
    t1: RedBlackBST<K, V>,
    t2: RedBlackBST<K, V>,
    key: K,
    val: V,
)
    requires
        t1.wf(),
        t2.wf(),
        t1@.dom().contains(key),
        t2@ == t1@.insert(key, val),
    ensures
        t2.key_seq() == t1.key_seq(),
{
    lemma_bst_keys(t1.root);
    lemma_bst_keys(t2.root);
    assert(t2@.dom() =~= t1@.dom());
    lemma_ascending_unique(t2.key_seq(), t1.key_seq());
}

/// Update semantics: writing a key twice is the same as writing it once
/// with the second value; the second write changes neither the key set nor
/// its size, and a lookup afterwards yields the second value. Together
/// with the contracts of `put`, `get` and `size` this pins down the
/// observable behavior of an overwriting `put`.
pub proof fn lemma_update_semantics<K: KeyT, V>(m: Map<K, V>, key: K, v1: V, v2: V)
    requires
        m.dom().finite(),
    ensures
        m.insert(key, v1).insert(key, v2) == m.insert(key, v2),
        m.insert(key, v1).insert(key, v2).dom() == m.insert(key, v1).dom(),
        m.insert(key, v1).insert(key, v2)[key] == v2,
        m.insert(key, v1).insert(key, v2).dom().len() == m.insert(key, v1).dom().len(),
{
    assert(m.insert(key, v1).insert(key, v2) =~= m.insert(key, v2));
    assert(m.insert(key, v1).insert(key, v2).dom() =~= m.insert(key, v1).dom());
}

/// Root color invariant: every reachable tree (in particular after every
/// completed `put`) hangs from a black root link.
pub proof fn lemma_root_black<K: KeyT, V>(tree: RedBlackBST<K, V>)
    requires
        tree.wf(),
    ensures
        tree.root_is_black(),
{
}

// ---------------------------------------------------------------------------
// Balance: the red-black invariants bound the height logarithmically in
// the number of keys.
// ---------------------------------------------------------------------------

spec fn link_height<K: KeyT, V>(link: Link<K, V>) -> nat
    decreases link,
{
    match link {
        None => 0,
        Some(node) => 1 + if link_height(node.left) >= link_height(node.right) {
            link_height(node.left)
        } else {
            link_height(node.right)
        },
    }
}

/// Paths alternate red and black links at worst, so the node height is at
/// most twice the black height (one more when the subtree's own link is
/// red).
proof fn lemma_rb_height<K: KeyT, V>(link: Link<K, V>)
    requires
        link_rb(link),
    ensures
        ebh(link) >= 1,
        link_height(link) + 2 <= 2 * ebh(link) + if is_red(link) {
            1int
        } else {
            0int
        },
    decreases link,
{
    match link {
        None => {},
        Some(node) => {
            lemma_rb_height(node.left);
            lemma_rb_height(node.right);
        },
    }
}

/// Perfect black balance forces at least `pow2(black height) - 1` keys.
proof fn lemma_rb_count<K: KeyT, V>(link: Link<K, V>)
    requires
        link_rb(link),
    ensures
        pow2(ebh(link)) <= 2 * (link_keys(link).len() + 1),
    decreases link,
{
    match link {
        None => {
            lemma2_to64();
        },
        Some(node) => {
            lemma_rb_count(node.left);
            lemma_rb_count(node.right);
            lemma_rb_height(node.left);
            if !node.is_red {
                assert(ebh(link) == ebh(node.left) + 1);
                lemma_pow2_adds(ebh(node.left), 1);
                lemma2_to64();
                assert(pow2(ebh(link)) == 2 * pow2(ebh(node.left)));
            } else {
                assert(ebh(link) == ebh(node.left));
            }
            assert(link_keys(link).len() == link_keys(node.left).len() + 1 + link_keys(
                node.right,
            ).len());
        },
    }
}

impl<K: KeyT, V> RedBlackBST<K, V> {
    /// The height of the tree: the number of nodes on the longest path
    /// from the root down to an empty child.
    pub closed spec fn height(self) -> nat {
        link_height(self.root)
    }
}

/// Balance bound: for any reachable tree, `2^height <= (n + 1)^2` where n
/// is the number of stored keys; that is, the height is at most
/// `2 * log2(n + 1)`.
pub proof fn lemma_balance_bound<K: KeyT, V>(tree: RedBlackBST<K, V>)
    requires
        tree.wf(),
    ensures
        pow2(tree.height()) <= (tree@.dom().len() + 1) * (tree@.dom().len() + 1),
{
    let n = tree@.dom().len();
    lemma_rb_height(tree.root);
    lemma_rb_count(tree.root);
    lemma_bst_keys(tree.root);
    let e = ebh(tree.root);
    assert(tree.height() <= 2 * e - 2);
    assert(pow2(e) <= 2 * (n + 1));
    lemma_pow2_adds((e - 1) as nat, 1);
    lemma2_to64();
    assert(pow2(e) == pow2((e - 1) as nat) * 2);
    assert(pow2((e - 1) as nat) <= n + 1);
    lemma_pow2_adds((e - 1) as nat, (e - 1) as nat);
    assert(pow2((2 * e - 2) as nat) == pow2((e - 1) as nat) * pow2((e - 1) as nat));
    lemma_mul_upper_bound(
        pow2((e - 1) as nat) as int,
        (n + 1) as int,
        pow2((e - 1) as nat) as int,
        (n + 1) as int,
    );
    if tree.height() < 2 * e - 2 {
        lemma_pow2_strictly_increases(tree.height(), (2 * e - 2) as nat);
    }
}

// ---------------------------------------------------------------------------
// Ordered iteration: an explicit-stack in-order traversal yielding the
// keys in ascending order, without recursion.
// ---------------------------------------------------------------------------

/// The keys an iterator stack still has to yield: each stacked node
/// contributes its own key followed by its right subtree, top of the
/// stack first.
spec fn stack_keys<K: KeyT, V>(items: Seq<&Node<K, V>>) -> Seq<K>
    decreases items.len(),
{
    if items.len() == 0 {
        Seq::empty()
    } else {
        seq![items.last().key] + link_keys(items.last().right) + stack_keys(items.drop_last())
    }
}

/// A stacked node contributes at least its own key.
proof fn lemma_stack_keys_len<K: KeyT, V>(items: Seq<&Node<K, V>>)
    ensures
        stack_keys(items).len() >= items.len(),
    decreases items.len(),
{
    if items.len() > 0 {
        lemma_stack_keys_len(items.drop_last());
    }
}

/// An in-order iterator over the keys of a [`RedBlackBST`], driven by an
/// explicit stack instead of recursion: the stack holds the nodes whose
/// key is still to be yielded, and `next` pops one, pushes the left spine
/// of its right subtree and returns the popped key. A fresh iterator must
/// be constructed from the tree for a fresh pass, and the tree cannot be
/// mutated while an iterator borrowing it is live.
pub struct IntoIter<'a, K: KeyT, V> {
    stack: StackLinkedList<&'a Node<K, V>>,
}

impl<'a, K: KeyT, V> IntoIter<'a, K, V> {
    /// The keys still to be yielded, in the order they will come out.
    pub closed spec fn remaining(self) -> Seq<K> {
        stack_keys(self.stack.items())
    }

    /// The iterator never tracks more pending keys than fit in `usize`.
    pub closed spec fn wf(self) -> bool {
        stack_keys(self.stack.items()).len() <= usize::MAX
    }

    pub fn new(tree: &'a RedBlackBST<K, V>) -> (it: Self)
        ensures
            it.wf(),
            it.remaining() == tree.key_seq(),
    {
        proof {
            use_type_invariant(tree);
            lemma_bst_keys(tree.root);
            // the key count equals the stored size, so it fits in usize
            assert(link_keys(tree.root).len() <= usize::MAX);
        }
        let mut it = IntoIter { stack: StackLinkedList::new() };
        it.push_left_nodes(&tree.root);
        proof {
            assert(it.remaining() =~= tree.key_seq());
        }
        it
    }

    /// Push the given subtree's root and everything reachable along left
    /// children, so that the keys of the whole subtree come to the front
    /// of the pending key sequence.
    pub fn push_left_nodes(&mut self, link: &'a Link<K, V>)
        requires
            link_keys(*link).len() + old(self).remaining().len() <= usize::MAX,
        ensures
            final(self).wf(),
            final(self).remaining() == link_keys(*link) + old(self).remaining(),
    {
        let ghost goal = link_keys(*link) + self.remaining();
        let mut cur = link;
        #[verifier::loop_isolation(false)]
        loop
            invariant
                link_keys(*cur) + self.remaining() == goal,
                goal.len() <= usize::MAX,
            decreases *cur,
        {
            match cur {
                None => {
                    proof {
                        assert(self.remaining() =~= goal);
                    }
                    return ;
                },
                Some(node) => {
                    proof {
                        lemma_stack_keys_len(self.stack.items());
                        assert(link_keys(*cur).len() >= 1);
                        assert(self.remaining().len() <= goal.len() - 1);
                        assert(self.stack.items().len() < usize::MAX);
                    }
                    let ghost pre = self.stack.items();
                    self.stack.push(&**node).unwrap();
                    proof {
                        assert(self.stack.items().drop_last() =~= pre);
                        assert(self.remaining() =~= seq![node.key] + link_keys(node.right)
                            + stack_keys(pre));
                        assert(link_keys(node.left) + self.remaining() =~= goal);
                    }
                    cur = &node.left;
                },
            }
        }
    }

    /// Pop the next node, queue up its right subtree's left spine, and
    /// yield the popped key: the first of the pending keys.
    pub fn next(&mut self) -> (r: Option<&'a K>)
        requires
            old(self).wf(),
        ensures
            final(self).wf(),
            match r {
                Some(k) => old(self).remaining().len() > 0 && *k == old(self).remaining()[0]
                    && final(self).remaining() == old(self).remaining().drop_first(),
                None => old(self).remaining().len() == 0 && final(self).remaining() == old(
                    self,
                ).remaining(),
            },
    {
        match self.stack.pop() {
            None => None,
            Some(node) => {
                proof {
                    assert(old(self).remaining() =~= seq![node.key] + link_keys(node.right)
                        + stack_keys(self.stack.items()));
                }
                self.push_left_nodes(&node.right);
                proof {
                    assert(self.remaining() =~= old(self).remaining().drop_first());
                }
                Some(&node.key)
            },
        }
    }
}

} // verus!
