//! Classic data structures and graph algorithms with machine-checked contracts:
//! a binary search tree, an AVL tree, a bounded max-heap, a trie, a directed
//! graph over adjacency lists and an undirected weighted graph.

pub mod avl;
pub mod graphs;
pub mod heaps;
mod marks;
mod min_queue;
pub mod text;
pub mod tree;
pub mod tries;
pub mod ungraphs;
