//! Exact substring-search primitives: a single-pattern matcher built on a
//! prefix-function table, and a multi-pattern matcher built as a trie with
//! failure links.

pub mod aho_corasick;
pub mod kmp;
