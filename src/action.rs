//! Moves that can be applied to the board.
use vstd::prelude::*;

verus! {

/// A move on the board.
#[derive(Debug, Clone, Copy, PartialEq, Eq, Structural)]
pub enum Action {
    /// Expose the next card of the stock.
    TurnStock,
    /// Move a card (or, between tableau piles, a run of cards) from one
    /// coordinate to another.
    Move(Coord, Coord),
}

/// A slot in one of the board's piles.
#[derive(Debug, Clone, Copy, PartialEq, Eq, Structural)]
pub struct Coord {
    pub location: Location,
    pub idx: u8,
}

impl Coord {
    pub fn new(location: Location, idx: u8) -> (r: Self)
        ensures
            r.location == location,
            r.idx == idx,
    {
        Coord { location, idx }
    }
}

/// Which pile a coordinate points into.
#[derive(Debug, Clone, Copy, PartialEq, Eq, Structural)]
pub enum Location {
    /// One of the foundation piles, by number.
    Foundation(u8),
    /// One of the tableau piles, by number.
    Tableau(u8),
    /// The exposed card of the stock.
    Talon,
}

} // verus!
