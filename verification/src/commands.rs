//! The queries and the builders of the indices they read.

pub mod download;
pub mod graph;
pub mod links;
pub mod long_paths;
pub mod random_article;
pub mod shortest_path;
