use vstd::prelude::*;

verus! {

/// One cell of the board.
#[derive(Copy, Clone, Debug, PartialEq, Eq, Structural)]
pub struct Tile {
    /// Number of crabs among the up to eight neighbouring tiles.
    pub count: u8,
    /// Whether a crab hides under this tile.
    pub crab: bool,
    /// Whether the tile has been uncovered.
    pub revealed: bool,
}

impl Tile {
    /// A covered tile with no crab and a zero count.
    pub fn empty() -> (r: Tile)
        ensures
            r.count == 0,
            !r.crab,
            !r.revealed,
    {
        Tile { count: 0, crab: false, revealed: false }
    }
}

} // verus!
