//! Shared plain data: cell markers, coordinates, step vectors and moves.

use vstd::prelude::*;

verus! {

/// Marker stored in one board cell: unoccupied, or a token of one side.
#[derive(Clone, Copy, Debug, PartialEq, Eq, Structural)]
pub enum Cell {
    Empty,
    X,
    O,
}

/// A zero-based board position; rows grow downward.
#[derive(Clone, Copy, Debug, PartialEq, Eq, Structural)]
pub struct Coords {
    pub row: u32,
    pub col: u32,
}

impl Coords {
    pub fn new(row: u32, col: u32) -> (r: Self)
        ensures
            r == (Coords { row, col }),
    {
        Self { row, col }
    }
}

/// A signed step vector used to walk along a board line.
#[derive(Clone, Copy, Debug, PartialEq, Eq, Structural)]
pub struct DeltaCoords {
    pub row: i32,
    pub col: i32,
}

/// A committed move: where a token was placed and by which side.
#[derive(Clone, Copy, Debug, PartialEq, Eq, Structural)]
pub struct BoardMove {
    pub coords: Coords,
    pub side: Cell,
}

impl BoardMove {
    pub fn new(row: u32, col: u32, side: Cell) -> (r: Self)
        ensures
            r == (BoardMove { coords: Coords { row, col }, side }),
    {
        Self { coords: Coords { row, col }, side }
    }
}

/// The other player's marker; empty stays empty.
pub open spec fn opposite(side: Cell) -> Cell {
    match side {
        Cell::X => Cell::O,
        Cell::O => Cell::X,
        Cell::Empty => Cell::Empty,
    }
}

/// The side whose turn follows a move by `side`.
pub fn other_side(side: Cell) -> (r: Cell)
    requires
        side != Cell::Empty,
    ensures
        r == opposite(side),
{
    match side {
        Cell::X => Cell::O,
        Cell::O => Cell::X,
        Cell::Empty => Cell::X,  // excluded by the precondition
    }
}

} // verus!
