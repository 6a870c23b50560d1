//! Classic collection data structures and algorithms, verified: symbol
//! tables (including a left-leaning red-black binary search tree), stacks,
//! queues, heaps, priority queues, lists, searching and sorting.

pub mod heap;
pub mod priority_queue;
pub mod linked_list;
pub mod list;
pub mod queue;
pub mod random;
pub mod search;
pub mod sorting;
pub mod stack;
pub mod symbol_table;
pub mod utils;

use vstd::prelude::*;

verus! {

} // verus!
