//! The logic of a two-player tank maze game: the random maze, its connected
//! regions and where the tanks start, the walls drawn from the maze, a text
//! picture of the maze, and the rules for ammunition, controls and the end of
//! a round.
mod rng;

pub mod maze;
pub mod regions;
pub mod board;
pub mod render;
pub mod tanks;
pub mod round;
