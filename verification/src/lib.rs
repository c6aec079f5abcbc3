//! A verified word-presence index.
//!
//! The library indexes which dictionary words appear in each of a set of
//! text files.  Per-file presence is held as a compact bitmap whose bit `i`
//! stands for the dictionary word at position `i`.  A cache codec persists
//! the whole index as one byte string and restores it; a scorer ranks files
//! by how many query words they share with each file.

pub mod bitmap;
pub mod words;
pub mod cache;
pub mod searcher;
