//! A trigram index over a line-oriented text file, with the query machinery
//! that narrows a regular-expression search to candidate byte ranges.
//!
//! The layers, from the bottom up: a variable-byte integer codec, an
//! ascending-delta codec over it, posting lists of chunk ids, an inventory of
//! posting lists, a three-level trigram trie, and a database that binds them
//! behind one framed byte format. Above those sit the regex-to-query
//! compiler, the query rewriter and the streaming query evaluator.

pub mod big_endian;
pub mod chunk_inventory;
pub mod chunk_list;
pub mod chunk_ends;
pub mod codec;
pub mod database;
pub mod from_lines;
pub mod inner_layer;
pub mod int_variable;
pub mod leaf_layer;
pub mod build_protocol;
pub mod database_queries;
pub mod query;
pub mod query_eval;
pub mod trigrams_from_regex;
pub mod int_always_ascending;
