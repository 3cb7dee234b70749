//! Indexes from keys to row ids.
pub mod btree_leaf;
pub mod hash;
