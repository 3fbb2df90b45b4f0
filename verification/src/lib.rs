//! A generic associative trie: keys are decomposed into ordered token
//! sequences by a pluggable tokenizer and stored along paths of a tree,
//! supporting exact lookup, prefix enumeration, and substring ("fuzzy")
//! matching on the last token of a query.

pub mod model;
pub mod tokenizer;
pub mod trie;
