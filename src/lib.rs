//! A doubly linked list kept in an arena of slots, with in-place reversal,
//! and a small undirected weighted graph over named nodes.
pub mod linked_list;
pub mod graph;
