//! Symbol tables store key-value pairs under totally ordered keys.
//!
//! Three implementations are provided: an ordered-array table, a plain
//! (unbalanced) binary search tree, and a left-leaning red-black binary
//! search tree.

pub mod binary_search_tree;
pub mod ordered_arr;
pub mod red_black_bst;

pub use binary_search_tree::BinarySearchTree;
pub use ordered_arr::OrderedArrST;
pub use red_black_bst::RedBlackBST;

use core::cmp::Ordering;
use vstd::prelude::*;

verus! {

/// A key type: a type with a total order that the container contracts can
/// be stated over. Keys are kept `Copy` so they can be handed around by
/// value, which fits the integer and character keys the tables are used
/// with.
pub trait KeyT: Sized + Copy {
    /// The total order on keys, as a specification-level relation.
    spec fn le(self, other: Self) -> bool;

    proof fn le_refl(a: Self)
        ensures
            a.le(a),
    ;

    proof fn le_trans(a: Self, b: Self, c: Self)
        requires
            a.le(b),
            b.le(c),
        ensures
            a.le(c),
    ;

    proof fn le_antisym(a: Self, b: Self)
        requires
            a.le(b),
            b.le(a),
        ensures
            a == b,
    ;

    proof fn le_total(a: Self, b: Self)
        ensures
            a.le(b) || b.le(a),
    ;

    /// Three-way comparison agreeing with `le`.
    fn key_cmp(&self, other: &Self) -> (o: Ordering)
        ensures
            match o {
                Ordering::Less => self.le(*other) && *self != *other,
                Ordering::Equal => *self == *other,
                Ordering::Greater => other.le(*self) && *self != *other,
            },
    ;
}

/// Strict version of the key order.
pub open spec fn key_lt<K: KeyT>(a: K, b: K) -> bool {
    a.le(b) && a != b
}

impl KeyT for i32 {
    open spec fn le(self, other: Self) -> bool {
        self <= other
    }

    proof fn le_refl(a: Self) {
    }

    proof fn le_trans(a: Self, b: Self, c: Self) {
    }

    proof fn le_antisym(a: Self, b: Self) {
    }

    proof fn le_total(a: Self, b: Self) {
    }

    fn key_cmp(&self, other: &Self) -> (o: Ordering) {
        if *self < *other {
            Ordering::Less
        } else if *self == *other {
            Ordering::Equal
        } else {
            Ordering::Greater
        }
    }
}

impl KeyT for i64 {
    open spec fn le(self, other: Self) -> bool {
        self <= other
    }

    proof fn le_refl(a: Self) {
    }

    proof fn le_trans(a: Self, b: Self, c: Self) {
    }

    proof fn le_antisym(a: Self, b: Self) {
    }

    proof fn le_total(a: Self, b: Self) {
    }

    fn key_cmp(&self, other: &Self) -> (o: Ordering) {
        if *self < *other {
            Ordering::Less
        } else if *self == *other {
            Ordering::Equal
        } else {
            Ordering::Greater
        }
    }
}

impl KeyT for u32 {
    open spec fn le(self, other: Self) -> bool {
        self <= other
    }

    proof fn le_refl(a: Self) {
    }

    proof fn le_trans(a: Self, b: Self, c: Self) {
    }

    proof fn le_antisym(a: Self, b: Self) {
    }

    proof fn le_total(a: Self, b: Self) {
    }

    fn key_cmp(&self, other: &Self) -> (o: Ordering) {
        if *self < *other {
            Ordering::Less
        } else if *self == *other {
            Ordering::Equal
        } else {
            Ordering::Greater
        }
    }
}

impl KeyT for u64 {
    open spec fn le(self, other: Self) -> bool {
        self <= other
    }

    proof fn le_refl(a: Self) {
    }

    proof fn le_trans(a: Self, b: Self, c: Self) {
    }

    proof fn le_antisym(a: Self, b: Self) {
    }

    proof fn le_total(a: Self, b: Self) {
    }

    fn key_cmp(&self, other: &Self) -> (o: Ordering) {
        if *self < *other {
            Ordering::Less
        } else if *self == *other {
            Ordering::Equal
        } else {
            Ordering::Greater
        }
    }
}

impl KeyT for usize {
    open spec fn le(self, other: Self) -> bool {
        self <= other
    }

    proof fn le_refl(a: Self) {
    }

    proof fn le_trans(a: Self, b: Self, c: Self) {
    }

    proof fn le_antisym(a: Self, b: Self) {
    }

    proof fn le_total(a: Self, b: Self) {
    }

    fn key_cmp(&self, other: &Self) -> (o: Ordering) {
        if *self < *other {
            Ordering::Less
        } else if *self == *other {
            Ordering::Equal
        } else {
            Ordering::Greater
        }
    }
}

impl KeyT for char {
    open spec fn le(self, other: Self) -> bool {
        (self as int) <= (other as int)
    }

    proof fn le_refl(a: Self) {
    }

    proof fn le_trans(a: Self, b: Self, c: Self) {
    }

    proof fn le_antisym(a: Self, b: Self) {
    }

    proof fn le_total(a: Self, b: Self) {
    }

    fn key_cmp(&self, other: &Self) -> (o: Ordering) {
        if *self < *other {
            Ordering::Less
        } else if *self == *other {
            Ordering::Equal
        } else {
            Ordering::Greater
        }
    }
}

/// A sequence of keys in strictly ascending order.
pub open spec fn ascending<K: KeyT>(s: Seq<K>) -> bool {
    forall|i: int, j: int| 0 <= i < j < s.len() ==> key_lt(s[i], s[j])
}

/// The strict key order is asymmetric and transitive.
pub(crate) proof fn lemma_lt_asym<K: KeyT>(a: K, b: K)
    requires
        key_lt(a, b),
    ensures
        !key_lt(b, a),
{
    if key_lt(b, a) {
        K::le_antisym(a, b);
    }
}

pub(crate) proof fn lemma_lt_trans<K: KeyT>(a: K, b: K, c: K)
    requires
        key_lt(a, b),
        key_lt(b, c),
    ensures
        key_lt(a, c),
{
    K::le_trans(a, b, c);
    if a == c {
        K::le_antisym(a, b);
    }
}

/// Two finite sets with no common element have as many elements together
/// as separately.
pub(crate) proof fn lemma_set_disjoint_union_len<A>(s1: Set<A>, s2: Set<A>)
    requires
        s1.finite(),
        s2.finite(),
        s1.disjoint(s2),
    ensures
        s1.union(s2).len() == s1.len() + s2.len(),
    decreases s2.len(),
{
    broadcast use vstd::set_lib::group_set_properties;

    if s2.len() == 0 {
        assert(s1.union(s2) =~= s1);
    } else {
        let a = s2.choose();
        assert(s2.contains(a));
        assert(s1.union(s2).remove(a) =~= s1.union(s2.remove(a)));
        lemma_set_disjoint_union_len(s1, s2.remove(a));
        assert(s1.union(s2).contains(a));
    }
}

/// Symbol tables store key-value pairs. Each implementation interprets
/// itself as the map `st_map()`, which every provided table defines
/// openly as its view `self@`, so callers can chain operations through
/// one spec surface; `put_room(key)` says exactly when an insertion is
/// accepted, and `removal_supported()` whether `pop` is available at
/// all.
pub trait SymbolTable<K: KeyT, V>: Sized {
    /// The key-value pairs currently stored, as a mathematical map.
    spec fn st_map(&self) -> Map<K, V>;

    /// True exactly when `put(key, _)` returns `Ok`.
    spec fn put_room(&self, key: K) -> bool;

    /// Whether the implementation supports removal.
    spec fn removal_supported(&self) -> bool;

    /// Add (or update) the key-value pair.
    fn put(&mut self, key: K, val: V) -> (r: Result<(), String>)
        ensures
            r.is_ok() <==> old(self).put_room(key),
            r.is_ok() ==> final(self).st_map() == old(self).st_map().insert(key, val),
            r.is_err() ==> *final(self) == *old(self),
    ;

    /// Get a reference to the value stored under `key`, if any.
    fn get(&self, key: K) -> (r: Option<&V>)
        ensures
            r == if self.st_map().dom().contains(key) {
                Some(&self.st_map()[key])
            } else {
                None::<&V>
            },
    ;

    /// Remove the entry stored under `key` and return its value, if any.
    fn pop(&mut self, key: K) -> (r: Option<V>)
        requires
            old(self).removal_supported(),
        ensures
            match r {
                Some(v) => old(self).st_map().dom().contains(key) && v == old(self).st_map()[key]
                    && final(self).st_map() == old(self).st_map().remove(key),
                None => !old(self).st_map().dom().contains(key) && *final(self) == *old(self),
            },
    ;

    fn is_empty(&self) -> (r: bool)
        ensures
            r <==> self.st_map().dom() =~= Set::<K>::empty(),
    ;

    fn size(&self) -> (n: usize)
        ensures
            self.st_map().dom().finite(),
            n == self.st_map().dom().len(),
    ;
}

/// Ordered symbol tables additionally support order queries (minimum and
/// maximum key, floor, ceiling, rank and selection). None of the provided
/// tables implements this surface yet; it is declared for callers that
/// want to program against it.
pub trait OrderedSymbolTable<K: KeyT, V>: SymbolTable<K, V> {
    fn min(&self) -> Option<K>;

    fn max(&self) -> Option<K>;

    fn floor(&self, key: K) -> Option<K>;

    fn ceil(&self, key: K) -> Option<K>;

    fn rank(&self, key: K) -> usize;

    fn select(&self, rank: usize) -> Option<K>;

    fn pop_min(&mut self) -> Option<(K, V)>;

    fn pop_max(&mut self) -> Option<(K, V)>;
}

} // verus!
