//! Connected-component labeling of an undirected graph given as an edge list.

pub mod graph;
pub mod labeling;
pub mod laws;

pub use labeling::{dfs, dfs_checked, LabelError};
