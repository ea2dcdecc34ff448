//! A small collection of verified classic data structures and
//! algorithms: binary min-heaps, a double-ended priority queue built
//! from two mirrored heaps, greedy and dynamic-programming change
//! making, disjoint-set structures, and a binary search tree
//! dictionary.

pub mod heap_order;
pub mod pq;
pub mod depq;
pub mod heap;
pub mod coin_change;
pub mod union_find;
pub mod union_by_rank;
pub mod union_by_size;
pub mod map;
