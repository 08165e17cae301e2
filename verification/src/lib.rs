//! Heterogeneous directed graphs: construction, queries, meta-path
//! parsing and meta-path subgraphs, edge deduplication, hop distances
//! and the integer side of random-walk exploration.
pub mod errors;
pub mod text;
pub mod type_table;
pub mod meta_path;
pub mod properties;
pub mod graph;
pub mod builder;
pub mod algorithms;
