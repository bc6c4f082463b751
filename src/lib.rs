//! Rule engine of a tile-matching puzzle in which the remaining tiles
//! gravitate towards the middle of the board.

pub mod action;
pub mod board_util;
pub mod fixed;
pub mod grid;
pub mod palette;
mod random;
pub mod util;
pub mod rules;
pub mod board;
