//! Airport route graphs: a table of airport coordinates, an undirected graph of
//! routes weighted by great-circle distance, and breadth-first traversal of it.

pub mod airports;
pub mod bfs;
pub mod discovery;
pub mod graph;
pub mod keys;
pub mod walks;
