//! A solver for coloured-maze puzzles: a square grid of coloured cells, a
//! repeating colour sequence, and a depth-first search for a walk from the
//! bottom row to the top row whose cells follow the sequence.

pub mod color;
pub mod grid;
pub mod parse;
pub mod path;
pub mod puzzle;
pub mod render;
pub mod search;
pub mod sequence;
