//! Counting the whitespace-separated words of a text: a binary search tree
//! with an upsert and an in-order enumeration, a word reader, and the fold
//! of the one into the other.

pub mod my_tree;
pub mod counter;
pub mod word_reader;
