//! Randomized shuffling.

use crate::symbol_table::KeyT;
use rand::Rng;
use vstd::prelude::*;

verus! {

/// Relies on rand::Rng::gen_range over an inclusive range: the result is
/// between the bounds, whatever the randomness produces.
#[verifier::external_body]
fn rand_index_up_to(i: usize) -> (r: usize)
    ensures
        r <= i,
{
    rand::thread_rng().gen_range(0..=i)
}

/// Fisher-Yates: walk the array backwards, swapping each entry with a
/// randomly chosen entry at or before it. The result is a permutation of
/// the input.
pub fn shuffle_arr<T: KeyT>(arr: &mut Vec<T>)
    ensures
        final(arr).len() == old(arr).len(),
        final(arr)@.to_multiset() == old(arr)@.to_multiset(),
{
    let mut i = arr.len();
    while i > 1
        invariant
            i <= arr.len() == old(arr).len(),
            arr@.to_multiset() == old(arr)@.to_multiset(),
        decreases i,
    {
        i = i - 1;
        let j = rand_index_up_to(i);
        crate::sorting::exchange(arr, i, j);
    }
}

} // verus!
