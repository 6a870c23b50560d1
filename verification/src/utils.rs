//! Array shifting helpers shared by the ordered-array containers.

use vstd::prelude::*;

verus! {

/// Inserts `item` at index `i` in `arr`, shifting everything from `i` on one
/// place to the right. The last item of the original array no longer has a
/// spot to move to, so it is returned (when `i == arr.len()`, the new item
/// itself is the one without a spot, and it comes straight back).
pub fn insert_and_shift<T>(arr: &mut Vec<T>, item: T, i: usize) -> (last: T)
    requires
        i <= old(arr).len(),
        old(arr).len() < usize::MAX,
    ensures
        final(arr)@ == old(arr)@.insert(i as int, item).drop_last(),
        last == if i < old(arr).len() {
            old(arr)@[old(arr).len() - 1]
        } else {
            item
        },
{
    arr.insert(i, item);
    arr.pop().unwrap()
}

/// Pops the entry at index `i`, shifting everything after it one place to
/// the left to fill its spot. The freed final slot is filled with `last`,
/// and the removed entry is returned.
pub fn pop_and_shift<T>(arr: &mut Vec<T>, last: T, i: usize) -> (deleted: T)
    requires
        i < old(arr).len(),
    ensures
        final(arr)@ == old(arr)@.remove(i as int).push(last),
        deleted == old(arr)@[i as int],
{
    let deleted = arr.remove(i);
    arr.push(last);
    deleted
}

} // verus!
