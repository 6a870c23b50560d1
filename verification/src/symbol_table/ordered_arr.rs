//! An ordered-array symbol table.

use super::{ascending, key_lt, lemma_lt_asym, KeyT, SymbolTable};
use crate::search::binary_search::{binary_search, binary_search_insert_index};
use vstd::prelude::*;
use vstd::seq_lib::group_seq_properties;

verus! {

/// The map held by two parallel sequences: the value of a key is the one
/// stored beside it.
spec fn kv_map<K: KeyT, V>(keys: Seq<K>, vals: Seq<V>) -> Map<K, V> {
    Map::new(|k: K| keys.contains(k), |k: K| vals[keys.index_of(k)])
}

/// A symbol table where keys and values are stored sorted by key, in
/// arrays of fixed capacity.
///
/// Since the entries are sorted, lookup is binary search in O(log n)
/// time. Insertion and deletion remain O(n): the position is found in
/// O(log n), but the entries behind it must shift by one place.
pub struct OrderedArrST<K: KeyT, V, const CAPACITY: usize> {
    keys: Vec<K>,
    vals: Vec<V>,
}

/// Strict ascending order gives the non-strict order binary search asks
/// for.
proof fn lemma_asc_sorted<K: KeyT>(s: Seq<K>)
    requires
        ascending(s),
    ensures
        crate::search::sorted_asc(s),
{
    assert forall|i: int, j: int| 0 <= i <= j < s.len() implies s[i].le(s[j]) by {
        if i == j {
            K::le_refl(s[i]);
        } else {
            assert(key_lt(s[i], s[j]));
        }
    }
}

/// In a strictly ascending sequence an element occurs at one index only.
proof fn lemma_asc_index_unique<K: KeyT>(s: Seq<K>, i: int, j: int)
    requires
        ascending(s),
        0 <= i < s.len(),
        0 <= j < s.len(),
        s[i] == s[j],
    ensures
        i == j,
{
    if i < j {
        assert(key_lt(s[i], s[j]));
    }
    if j < i {
        assert(key_lt(s[j], s[i]));
    }
}

/// A strictly ascending key column holds each stored key at the index the
/// map reads its value from.
proof fn lemma_kv_at<K: KeyT, V>(keys: Seq<K>, vals: Seq<V>, i: int)
    requires
        ascending(keys),
        keys.len() == vals.len(),
        0 <= i < keys.len(),
    ensures
        kv_map(keys, vals).dom().contains(keys[i]),
        kv_map(keys, vals)[keys[i]] == vals[i],
{
    assert(keys.contains(keys[i]));
    lemma_asc_index_unique(keys, keys.index_of(keys[i]), i);
}

/// A strictly ascending sequence has no duplicates.
proof fn lemma_asc_no_duplicates<K: KeyT>(s: Seq<K>)
    requires
        ascending(s),
    ensures
        s.no_duplicates(),
        s.to_set().finite(),
        s.to_set().len() == s.len(),
{
    assert forall|i: int, j: int| 0 <= i < s.len() && 0 <= j < s.len() && i != j implies s[i]
        != s[j] by {
        if i < j {
            assert(key_lt(s[i], s[j]));
        } else {
            assert(key_lt(s[j], s[i]));
        }
    }
    s.unique_seq_to_set();
}

impl<K: KeyT, V, const CAPACITY: usize> View for OrderedArrST<K, V, CAPACITY> {
    type V = Map<K, V>;

    closed spec fn view(&self) -> Map<K, V> {
        kv_map(self.keys@, self.vals@)
    }
}

impl<K: KeyT, V, const CAPACITY: usize> OrderedArrST<K, V, CAPACITY> {
    /// One value beside each key, keys strictly ascending, and everything
    /// within the fixed capacity.
    #[verifier::type_invariant]
    pub closed spec fn wf(self) -> bool {
        &&& self.keys.len() == self.vals.len()
        &&& self.keys.len() <= CAPACITY
        &&& ascending(self.keys@)
    }

    /// The keys, in ascending order.
    pub closed spec fn key_seq(self) -> Seq<K> {
        self.keys@
    }

    pub fn new() -> (st: Self)
        ensures
            st@ == Map::<K, V>::empty(),
    {
        let st = OrderedArrST { keys: Vec::new(), vals: Vec::new() };
        proof {
            assert(st@ =~= Map::<K, V>::empty());
        }
        st
    }
}

impl<K: KeyT, V, const CAPACITY: usize> SymbolTable<K, V> for OrderedArrST<K, V, CAPACITY> {
    open spec fn st_map(&self) -> Map<K, V> {
        self@
    }

    open spec fn put_room(&self, key: K) -> bool {
        self@.dom().len() < CAPACITY || self@.dom().contains(key)
    }

    open spec fn removal_supported(&self) -> bool {
        true
    }

    /// Add (or update) the key-value pair: binary search finds either the
    /// key (update the value beside it) or the insertion position that
    /// keeps the arrays sorted (shift and insert, O(n)), unless the
    /// capacity is full.
    fn put(&mut self, key: K, val: V) -> (r: Result<(), String>) {
        proof {
            use_type_invariant(&*self);
            lemma_asc_no_duplicates(self.keys@);
            assert(self@.dom() =~= self.keys@.to_set());
        }
        let ghost keys0 = self.keys@;
        let ghost vals0 = self.vals@;
        proof {
            lemma_asc_sorted(keys0);
        }
        let mut taken = OrderedArrST { keys: Vec::new(), vals: Vec::new() };
        core::mem::swap(&mut taken, self);
        let OrderedArrST { keys, mut vals } = taken;

        let i = binary_search_insert_index(&keys, &key);
        if i < keys.len() && {
            let hit = keys[i].key_cmp(&key);
            matches!(hit, core::cmp::Ordering::Equal)
        } {
            // update the entry
            let _ = vals.remove(i);
            vals.insert(i, val);
            proof {
                assert forall|k: K| #[trigger] kv_map(keys0, vals@).dom().contains(k) implies kv_map(
                    keys0,
                    vals@,
                )[k] == kv_map(keys0, vals0).insert(key, val)[k] by {
                    let j = keys0.index_of(k);
                    lemma_kv_at(keys0, vals@, j);
                    lemma_kv_at(keys0, vals0, j);
                    if k == key {
                        lemma_asc_index_unique(keys0, j, i as int);
                    } else {
                        lemma_asc_index_unique(keys0, keys0.index_of(k), j);
                        assert(j != i);
                    }
                }
                assert(kv_map(keys0, vals@) =~= kv_map(keys0, vals0).insert(key, val));
            }
            let mut updated = OrderedArrST { keys, vals };
            core::mem::swap(&mut updated, self);
            return Ok(());
        }

        // insert a new entry
        proof {
            assert(!keys0.contains(key)) by {
                if keys0.contains(key) {
                    let j = keys0.index_of(key);
                    assert(keys0[i as int] == key);
                }
            }
        }
        if keys.len() >= CAPACITY {
            let mut restored = OrderedArrST { keys, vals };
            core::mem::swap(&mut restored, self);
            proof {
                assert(!self@.dom().contains(key));
            }
            return Err("capacity full".to_string());
        }
        let mut keys = keys;
        keys.insert(i, key);
        vals.insert(i, val);
        proof {
            broadcast use group_seq_properties;

            let keys1 = keys@;
            let vals1 = vals@;
            assert(keys1 == keys0.insert(i as int, key));
            assert forall|p: int, q: int| 0 <= p < q < keys1.len() implies key_lt(
                keys1[p],
                keys1[q],
            ) by {
                assert(forall|k: int| 0 <= k < i ==> keys1[k] == keys0[k]);
                assert(forall|k: int| i < k < keys1.len() ==> keys1[k] == keys0[k - 1]);
                if p < i && q > i {
                    assert(keys1[p].le(key) && keys1[p] != key);
                    assert(key.le(keys1[q]) && keys1[q] != key);
                    super::lemma_lt_trans(keys1[p], key, keys1[q]);
                } else if q == i && p < i {
                    assert(keys1[p].le(key) && keys1[p] != key);
                } else if p == i && q > i {
                    assert(key.le(keys1[q]) && keys1[q] != key);
                }
            }
            assert forall|k: K| #[trigger] keys1.contains(k) implies keys0.contains(k) || k
                == key by {
                let j = choose|j: int| 0 <= j < keys1.len() && keys1[j] == k;
                if j < i {
                    assert(keys0[j] == k);
                } else if j > i {
                    assert(keys0[j - 1] == k);
                }
            }
            assert forall|k: K| keys0.contains(k) implies #[trigger] keys1.contains(k) by {
                let j = choose|j: int| 0 <= j < keys0.len() && keys0[j] == k;
                if j < i {
                    assert(keys1[j] == k);
                } else {
                    assert(keys1[j + 1] == k);
                }
            }
            assert(keys1.contains(key));
            assert forall|k: K| #[trigger] kv_map(keys1, vals1).dom().contains(k) implies kv_map(
                keys1,
                vals1,
            )[k] == kv_map(keys0, vals0).insert(key, val)[k] by {
                let j = keys1.index_of(k);
                lemma_kv_at(keys1, vals1, j);
                if k == key {
                    lemma_asc_index_unique(keys1, j, i as int);
                } else {
                    if j < i {
                        assert(keys0[j] == k);
                        lemma_kv_at(keys0, vals0, j);
                        lemma_asc_index_unique(keys0, keys0.index_of(k), j);
                    } else {
                        assert(j > i);
                        assert(keys0[j - 1] == k);
                        lemma_kv_at(keys0, vals0, j - 1);
                        lemma_asc_index_unique(keys0, keys0.index_of(k), j - 1);
                    }
                }
            }
            assert(kv_map(keys1, vals1) =~= kv_map(keys0, vals0).insert(key, val));
            lemma_asc_no_duplicates(keys1);
            assert(kv_map(keys1, vals1).dom() =~= keys1.to_set());
        }
        let mut updated = OrderedArrST { keys, vals };
        core::mem::swap(&mut updated, self);
        Ok(())
    }

    /// Binary search on the key column; on a hit, the value beside it.
    fn get(&self, key: K) -> (r: Option<&V>) {
        proof {
            use_type_invariant(self);
            lemma_asc_sorted(self.keys@);
        }
        match binary_search(&self.keys, &key) {
            None => {
                proof {
                    assert(!self@.dom().contains(key)) by {
                        if self.keys@.contains(key) {
                            let j = self.keys@.index_of(key);
                            assert(self.keys@[j] == key);
                        }
                    }
                }
                None
            },
            Some(i) => {
                proof {
                    lemma_kv_at(self.keys@, self.vals@, i as int);
                }
                Some(&self.vals[i])
            },
        }
    }

    /// Binary search for the key; on a hit, remove the entry and shift
    /// everything behind it one place to the left (O(n)).
    fn pop(&mut self, key: K) -> (r: Option<V>) {
        proof {
            use_type_invariant(&*self);
        }
        let ghost keys0 = self.keys@;
        let ghost vals0 = self.vals@;
        proof {
            lemma_asc_sorted(keys0);
        }
        let mut taken = OrderedArrST { keys: Vec::new(), vals: Vec::new() };
        core::mem::swap(&mut taken, self);
        let OrderedArrST { mut keys, mut vals } = taken;

        match binary_search(&keys, &key) {
            None => {
                let mut restored = OrderedArrST { keys, vals };
                core::mem::swap(&mut restored, self);
                proof {
                    assert(!self@.dom().contains(key)) by {
                        if keys0.contains(key) {
                            let j = keys0.index_of(key);
                            assert(keys0[j] == key);
                        }
                    }
                }
                None
            },
            Some(i) => {
                let _ = keys.remove(i);
                let deleted = vals.remove(i);
                proof {
                    broadcast use group_seq_properties;

                    let keys1 = keys@;
                    let vals1 = vals@;
                    lemma_kv_at(keys0, vals0, i as int);
                    assert forall|p: int, q: int| 0 <= p < q < keys1.len() implies key_lt(
                        keys1[p],
                        keys1[q],
                    ) by {
                        assert(forall|k: int| 0 <= k < i ==> keys1[k] == keys0[k]);
                        assert(forall|k: int| i <= k < keys1.len() ==> keys1[k] == keys0[k + 1]);
                    }
                    assert forall|k: K| #[trigger] keys1.contains(k) implies keys0.contains(k) && k
                        != key by {
                        let j = choose|j: int| 0 <= j < keys1.len() && keys1[j] == k;
                        if j < i {
                            assert(keys0[j] == k);
                            if k == key {
                                lemma_asc_index_unique(keys0, j, i as int);
                            }
                        } else {
                            assert(keys0[j + 1] == k);
                            if k == key {
                                lemma_asc_index_unique(keys0, j + 1, i as int);
                            }
                        }
                    }
                    assert forall|k: K| keys0.contains(k) && k != key implies #[trigger]
                        keys1.contains(k) by {
                        let j = choose|j: int| 0 <= j < keys0.len() && keys0[j] == k;
                        assert(j != i);
                        if j < i {
                            assert(keys1[j] == k);
                        } else {
                            assert(keys1[j - 1] == k);
                        }
                    }
                    assert forall|k: K| #[trigger] kv_map(keys1, vals1).dom().contains(
                        k,
                    ) implies kv_map(keys1, vals1)[k] == kv_map(keys0, vals0).remove(key)[k] by {
                        let j = keys1.index_of(k);
                        lemma_kv_at(keys1, vals1, j);
                        if j < i {
                            assert(keys0[j] == k);
                            lemma_kv_at(keys0, vals0, j);
                            lemma_asc_index_unique(keys0, keys0.index_of(k), j);
                        } else {
                            assert(keys0[j + 1] == k);
                            lemma_kv_at(keys0, vals0, j + 1);
                            lemma_asc_index_unique(keys0, keys0.index_of(k), j + 1);
                        }
                    }
                    assert(kv_map(keys1, vals1) =~= kv_map(keys0, vals0).remove(key));
                }
                let mut updated = OrderedArrST { keys, vals };
                core::mem::swap(&mut updated, self);
                Some(deleted)
            },
        }
    }

    fn is_empty(&self) -> (r: bool) {
        proof {
            use_type_invariant(self);
            if self.keys.len() == 0 {
                assert(self@.dom() =~= Set::<K>::empty());
            } else {
                assert(self.keys@.contains(self.keys@[0]));
                assert(self@.dom().contains(self.keys@[0]));
            }
        }
        self.keys.len() == 0
    }

    fn size(&self) -> (n: usize) {
        proof {
            use_type_invariant(self);
            lemma_asc_no_duplicates(self.keys@);
            assert(self@.dom() =~= self.keys@.to_set());
        }
        self.keys.len()
    }
}

/// The key column of any reachable table is strictly ascending and
/// enumerates the keys of the table's map exactly once, so iteration
/// visits the stored keys in strictly ascending order.
pub proof fn lemma_ordered_arr_keys_sorted<K: KeyT, V, const CAPACITY: usize>(
    st: OrderedArrST<K, V, CAPACITY>,
)
    requires
        st.wf(),
    ensures
        ascending(st.key_seq()),
        forall|k: K| #[trigger] st.key_seq().contains(k) <==> st@.dom().contains(k),
        st.key_seq().len() == st@.dom().len(),
{
    lemma_asc_no_duplicates(st.keys@);
    assert(st@.dom() =~= st.keys@.to_set());
    assert forall|k: K| #[trigger] st.key_seq().contains(k) <==> st@.dom().contains(k) by {
        assert(st.keys@.to_set().contains(k) == st.keys@.contains(k));
    }
}

/// An index-driven iterator over the keys of an [`OrderedArrST`], in
/// ascending key order.
pub struct IntoIter<'a, K: KeyT, V, const CAPACITY: usize> {
    st: &'a OrderedArrST<K, V, CAPACITY>,
    i: usize,
}

impl<'a, K: KeyT, V, const CAPACITY: usize> IntoIter<'a, K, V, CAPACITY> {
    /// The keys still to be yielded, in the order they will come out.
    pub closed spec fn remaining(self) -> Seq<K> {
        self.st.key_seq().skip(self.i as int)
    }

    pub closed spec fn wf(self) -> bool {
        self.i <= self.st.key_seq().len()
    }

    pub fn new(st: &'a OrderedArrST<K, V, CAPACITY>) -> (it: Self)
        ensures
            it.wf(),
            it.remaining() == st.key_seq(),
    {
        proof {
            use_type_invariant(st);
        }
        let it = IntoIter { st, i: 0 };
        proof {
            assert(it.remaining() =~= st.key_seq());
        }
        it
    }

    /// Yield the first of the pending keys.
    pub fn next(&mut self) -> (r: Option<&'a K>)
        requires
            old(self).wf(),
        ensures
            final(self).wf(),
            match r {
                Some(k) => old(self).remaining().len() > 0 && *k == old(self).remaining()[0]
                    && final(self).remaining() == old(self).remaining().drop_first(),
                None => old(self).remaining().len() == 0 && final(self).remaining() == old(
                    self,
                ).remaining(),
            },
    {
        proof {
            use_type_invariant(self.st);
        }
        if self.i >= self.st.keys.len() {
            return None;
        }
        let k = &self.st.keys[self.i];
        self.i = self.i + 1;
        proof {
            assert(self.remaining() =~= old(self).remaining().drop_first());
        }
        Some(k)
    }
}

} // verus!
