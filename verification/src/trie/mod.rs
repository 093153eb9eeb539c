//! The tries: index types and leaves, the radix trie with the removal of
//! leaves and the count of its branchings, and the level-compressed trie.
pub mod census;
pub mod common;
pub mod lctrie;
pub mod patricia;
pub mod removal;
