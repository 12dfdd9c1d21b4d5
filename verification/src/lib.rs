//! A small in-memory search library: records (flat string-to-string maps) are
//! tokenized into an inverted index, which answers exact ("strict") token
//! lookups and heuristic substring ("fuzzy") lookups with a result limit.

pub mod index;
pub mod laws;
pub mod search;
pub mod text;
