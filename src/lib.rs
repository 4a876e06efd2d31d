//! A sorted map whose ordered index is a self-balancing search tree stored
//! node by node in a key-value store, with lazy, bounded, double-ended
//! cursors over its keys and entries.

pub mod approval;
pub mod bound;
pub mod generic_incrementer;
pub mod incrementer;
pub mod iter;
pub mod lookup_map;
pub mod shape;
pub mod tree;
pub mod tree_map;
pub mod vm_types;
