//! Small verified data-structure library: an array-backed binary heap with a
//! pluggable ordering policy, an in-place quicksort, and a binary search tree.

pub mod bst;
pub mod heap;
pub mod order;
pub mod perm;
pub mod quicksort;
