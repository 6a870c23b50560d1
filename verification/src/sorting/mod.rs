//! Sorting algorithms over totally ordered elements.
//!
//! Every sort rearranges the array into ascending order without adding or
//! dropping elements: the result is sorted and holds the same multiset of
//! items as the input.

pub mod bubble;
pub mod heap;
pub mod merge;
pub mod quick;
pub mod selection;
pub mod shell;

pub use bubble::bubble_sort;
pub use heap::heap_sort;
pub use merge::merge_sort;
pub use quick::quick_sort;
pub use selection::selection_sort;
pub use shell::shell_sort;

use crate::search::sorted_asc;
use crate::symbol_table::KeyT;
use vstd::prelude::*;
use vstd::seq_lib::lemma_multiset_commutative;

verus! {

/// Swap the entries at `i` and `j`.
pub(crate) fn exchange<T: KeyT>(arr: &mut Vec<T>, i: usize, j: usize)
    requires
        i < old(arr).len(),
        j < old(arr).len(),
    ensures
        final(arr)@ == old(arr)@.update(i as int, old(arr)@[j as int]).update(
            j as int,
            old(arr)@[i as int],
        ),
        final(arr)@.to_multiset() == old(arr)@.to_multiset(),
        final(arr).len() == old(arr).len(),
{
    let vi = arr[i];
    let vj = arr[j];
    arr[i] = vj;
    arr[j] = vi;
    proof {
        lemma_swap_multiset(old(arr)@, i as int, j as int);
    }
}

/// Swapping two entries of a sequence leaves its multiset unchanged.
pub(crate) proof fn lemma_swap_multiset<T>(s: Seq<T>, i: int, j: int)
    requires
        0 <= i < s.len(),
        0 <= j < s.len(),
    ensures
        s.update(i, s[j]).update(j, s[i]).to_multiset() == s.to_multiset(),
{
    let t = s.update(i, s[j]).update(j, s[i]);
    if i == j {
        assert(t =~= s);
    } else {
        let a = if i < j {
            i
        } else {
            j
        };
        let b = if i < j {
            j
        } else {
            i
        };
        let p1 = s.subrange(0, a);
        let p2 = s.subrange(a + 1, b);
        let p3 = s.subrange(b + 1, s.len() as int);
        assert(s =~= p1 + seq![s[a]] + p2 + seq![s[b]] + p3);
        assert(t =~= p1 + seq![s[b]] + p2 + seq![s[a]] + p3);
        lemma_multiset_commutative(p1 + seq![s[a]] + p2 + seq![s[b]], p3);
        lemma_multiset_commutative(p1 + seq![s[a]] + p2, seq![s[b]]);
        lemma_multiset_commutative(p1 + seq![s[a]], p2);
        lemma_multiset_commutative(p1, seq![s[a]]);
        lemma_multiset_commutative(p1 + seq![s[b]] + p2 + seq![s[a]], p3);
        lemma_multiset_commutative(p1 + seq![s[b]] + p2, seq![s[a]]);
        lemma_multiset_commutative(p1 + seq![s[b]], p2);
        lemma_multiset_commutative(p1, seq![s[b]]);
        assert(t.to_multiset() =~= s.to_multiset());
    }
}

/// Inserting an entry into a sequence adds exactly that entry to its
/// multiset.
pub(crate) proof fn lemma_insert_multiset<T>(s: Seq<T>, i: int, v: T)
    requires
        0 <= i <= s.len(),
    ensures
        s.insert(i, v).to_multiset() == s.to_multiset().insert(v),
{
    broadcast use vstd::seq_lib::group_to_multiset_ensures;

    let a = s.subrange(0, i);
    let b = s.subrange(i, s.len() as int);
    assert(s =~= a + b);
    assert(s.insert(i, v) =~= a.push(v) + b);
    lemma_multiset_commutative(a, b);
    lemma_multiset_commutative(a.push(v), b);
    assert(a.push(v).to_multiset() =~= a.to_multiset().insert(v));
    assert(s.insert(i, v).to_multiset() =~= s.to_multiset().insert(v));
}

/// Sequences that agree on a subrange agree at each of its positions.
pub(crate) proof fn lemma_agree_on<T>(s1: Seq<T>, s2: Seq<T>, a: int, b: int)
    requires
        s1.len() == s2.len(),
        0 <= a <= b <= s1.len(),
        s1.subrange(a, b) == s2.subrange(a, b),
    ensures
        forall|t: int| a <= t < b ==> s1[t] == #[trigger] s2[t],
{
    assert forall|t: int| a <= t < b implies s1[t] == #[trigger] s2[t] by {
        assert(s1.subrange(a, b)[t - a] == s1[t]);
        assert(s2.subrange(a, b)[t - a] == s2[t]);
    }
}

/// In a sequence whose neighbors are pairwise ordered, any earlier entry
/// is at most any later one.
pub(crate) proof fn lemma_le_span<T: KeyT>(s: Seq<T>, i: int, j: int)
    requires
        forall|k: int| 1 <= k < s.len() ==> #[trigger] s[k - 1].le(s[k]),
        0 <= i <= j < s.len(),
    ensures
        s[i].le(s[j]),
    decreases j - i,
{
    if i == j {
        T::le_refl(s[i]);
    } else {
        lemma_le_span(s, i, j - 1);
        assert(s[j - 1].le(s[j]));
        T::le_trans(s[i], s[j - 1], s[j]);
    }
}

/// A sequence whose neighbors are pairwise ordered is sorted.
pub(crate) proof fn lemma_adjacent_sorted<T: KeyT>(s: Seq<T>)
    requires
        forall|k: int| 1 <= k < s.len() ==> #[trigger] s[k - 1].le(s[k]),
    ensures
        sorted_asc(s),
{
    assert forall|i: int, j: int| 0 <= i <= j < s.len() implies s[i].le(s[j]) by {
        lemma_le_span(s, i, j);
    }
}

/// An upper bound on every entry survives any rearrangement: two
/// sequences over the same multiset are bounded by the same elements.
pub(crate) proof fn lemma_multiset_le_bound<T: KeyT>(s1: Seq<T>, s2: Seq<T>, x: T)
    requires
        s1.to_multiset() == s2.to_multiset(),
        forall|i: int| 0 <= i < s1.len() ==> #[trigger] s1[i].le(x),
    ensures
        forall|i: int| 0 <= i < s2.len() ==> #[trigger] s2[i].le(x),
{
    broadcast use vstd::seq_lib::group_to_multiset_ensures;

    assert forall|i: int| 0 <= i < s2.len() implies #[trigger] s2[i].le(x) by {
        assert(s2.contains(s2[i]));
        assert(s2.to_multiset().count(s2[i]) > 0);
        assert(s1.contains(s2[i]));
        let j = choose|j: int| 0 <= j < s1.len() && s1[j] == s2[i];
        assert(s1[j].le(x));
    }
}

/// A lower bound on every entry survives any rearrangement too.
pub(crate) proof fn lemma_multiset_ge_bound<T: KeyT>(s1: Seq<T>, s2: Seq<T>, x: T)
    requires
        s1.to_multiset() == s2.to_multiset(),
        forall|i: int| 0 <= i < s1.len() ==> #[trigger] x.le(s1[i]),
    ensures
        forall|i: int| 0 <= i < s2.len() ==> #[trigger] x.le(s2[i]),
{
    broadcast use vstd::seq_lib::group_to_multiset_ensures;

    assert forall|i: int| 0 <= i < s2.len() implies #[trigger] x.le(s2[i]) by {
        assert(s2.contains(s2[i]));
        assert(s2.to_multiset().count(s2[i]) > 0);
        assert(s1.contains(s2[i]));
        let j = choose|j: int| 0 <= j < s1.len() && s1[j] == s2[i];
        assert(x.le(s1[j]));
    }
}

} // verus!
