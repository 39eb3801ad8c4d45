//! Small data structures with their proofs: an undirected graph with
//! walks and searches over it, a grid, a Bloom filter, vectors of fixed
//! length, note sequences, and the puzzles that are solved with them.
//!
//! Every function states what it returns over a mathematical view of its
//! arguments, and the statements are proved.
pub mod bloomfilter;
pub mod days;
pub mod events;
pub mod exts;
pub mod graph;
pub mod graph_algo;
pub mod grid;
pub mod outside;
pub mod seq;
pub mod seq3;
pub mod text;
pub mod time;
pub mod vex;
