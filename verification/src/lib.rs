//! A small library of linked data structures built from first principles:
//! a singly linked chain, a bucketed hash map that resolves collisions by
//! chaining, node-based and array-backed stacks, a FIFO queue, and a directed
//! graph whose nodes live in an arena and reference each other by index.
//!
//! Every structure carries a mathematical view (a `Seq` or a `Map`) and its
//! operations are specified and verified against that view.

pub mod error;
pub mod graph;
pub mod hash_key;
pub mod hashmap;
pub mod linked_list;
pub mod linked_stack;
pub mod queue;
pub mod stack;
pub mod vector_based;
