//! An in-memory prefix tree (trie) mapping character-sequence keys to
//! integer values, with exact-key insertion and exact-key lookup.
//!
//! Nodes live in an append-only arena and refer to each other by index;
//! node 0 is the root. Both operations walk from the root, consuming one
//! key character per step. The abstract model of a trie is the partial
//! map from key sequences to the values stored at the nodes they reach.

pub mod laws;
pub mod trie;
