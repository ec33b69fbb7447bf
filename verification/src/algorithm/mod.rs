//! The graph algorithms whose logic does not rest on floating point.

pub mod state;
pub mod bfs;
pub mod dfs;
pub mod topological_sort;
pub mod kruskal;
