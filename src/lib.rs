//! Board model of a small Minesweeper game in which crabs hide under the tiles.
use vstd::prelude::*;

pub mod board;
pub mod game;
pub mod tile;

verus! {

/// Side length of the square board.
pub const BOARD_SIZE: usize = 8;

/// Number of crabs that a freshly initialised board holds.
pub const CRAB_COUNT: u8 = 8;

} // verus!
