//! Additions to numbers and to sequences of items.
pub mod iterator;
pub mod numbers;
