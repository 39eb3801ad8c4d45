//! The puzzles, one module for each day.
pub mod aoc01;
pub mod aoc02;
pub mod aoc03;
pub mod aoc04;
pub mod aoc05;
pub mod aoc06;
pub mod aoc07;
pub mod aoc08;
pub mod aoc09;
pub mod aoc10;
pub mod aoc11;
pub mod aoc12;
