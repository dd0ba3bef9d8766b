//! Dictionary-based segmentation of unspaced text.
//!
//! The crate offers a character-keyed dictionary trie and a greedy
//! segmenter that splits a string into tokens: dictionary words where
//! the trie matches a prefix, single-character fallback tokens (with
//! trailing combining marks kept attached) where it does not.

pub mod segment;
pub mod trie;
