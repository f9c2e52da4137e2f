//! Shortest-solution search for sliding-block puzzles.

pub mod board;
pub mod search;
