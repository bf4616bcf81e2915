//! Indices over a snapshot of a wiki, and questions about its link graph.
//!
//! A snapshot is cut into parts, each with an index of the articles it
//! holds. From the pages of the snapshot the crate builds a map between the
//! identifiers and the canonical titles of the articles, and the graph of
//! the links between them. The maps are partitioned, so that they can be
//! written to and read from many small files. On the graph the crate finds
//! shortest paths by a search that runs from both ends at once.
//!
//! The crate reads and writes values, not files: what is in a file comes in
//! as bytes, text or lines, and what goes into one is handed out.

pub mod binary_search_line;
pub mod commands;
pub mod hierarchical_map;
pub mod json;
pub mod keys;
pub mod memoise;
pub mod page;
pub mod parse;
pub mod partition;
pub mod summary;
pub mod text;
pub mod titles;
