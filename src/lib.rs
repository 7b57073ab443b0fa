//! Containers, vertices with adjacency lists, and blind graph search
//! (breadth-first and depth-first) with level assignment.
pub mod containers;
pub mod vertexs;
pub mod graph;
pub mod traversal;
pub mod laws;
pub mod list;
pub mod nodes;
