//! Parse a square text maze, find a way from its start to its end by
//! depth-first search, and lay the maze out as terminal text.
pub mod laws;
pub mod maze;
pub mod point;
pub mod render;
pub mod search;
