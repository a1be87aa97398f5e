//! A binary trie addressed by the bits of a `u32` key, with a memoised
//! Merkle digest over its contents.
pub mod text;
pub mod digest;
pub mod trie_node;
pub mod laws;
