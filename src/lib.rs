//! A word-occurrence index over a byte stream: a delimiter-driven tokenizer,
//! a partitioner whose boundaries never cut a word, a merge of per-partition
//! indexes into one canonical index, and a query path that turns occurrences
//! into bounded context windows.

pub mod tokenizer;
pub mod partition;
pub mod order;
pub mod index;
pub mod query;
pub mod snapshot;
