//! A persistent, structurally shared sparse map keyed by `usize`, stored as a
//! 32-way array-mapped trie.
pub mod bitset;
pub mod trie;
