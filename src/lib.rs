//! Classic in-memory containers with machine-checked contracts: a growable
//! sequence, a stack, a queue, a hash-backed associative map, an unbalanced
//! binary search tree, an adjacency-list graph and a binary heap.

pub mod stack;
pub mod bst;
pub mod graph;
pub mod heap;
pub mod queue;
pub mod assoc_map;
pub mod sequence;
