//! Walks and searches over a graph.
pub mod astar;
pub mod dijkstra;
pub mod search;
