//! A MARISA-style static string dictionary: a recursive LOUDS trie with a
//! shared-suffix TAIL buffer, mapping byte-string keys to dense integer
//! identifiers and back.

pub mod bit_vec;
pub mod config;
pub mod entry;
pub mod error;
pub mod intrinsic;
pub mod key;
pub mod louds;
pub mod tail;
pub mod trie;
