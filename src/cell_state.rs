use vstd::prelude::*;

verus! {

/// What a point of the board holds.
#[derive(Clone, Copy, Debug, PartialEq, Eq, Structural)]
pub enum CellState {
    Empty,
    White,
    Black,
}

/// The colour that moves after `c`; an empty cell has no opponent.
pub open spec fn other(c: CellState) -> CellState {
    match c {
        CellState::Black => CellState::White,
        CellState::White => CellState::Black,
        CellState::Empty => CellState::Empty,
    }
}

/// The slot of a colour in the table of captured-stone counters.
pub open spec fn slot(c: CellState) -> int {
    match c {
        CellState::Empty => 0,
        CellState::White => 1,
        CellState::Black => 2,
    }
}

impl CellState {
    pub fn get_other_player(&self) -> (r: CellState)
        ensures
            r == other(*self),
    {
        match self {
            CellState::Black => CellState::White,
            CellState::White => CellState::Black,
            CellState::Empty => CellState::Empty,
        }
    }

    /// The slot of this colour in the table of captured-stone counters.
    pub fn slot(&self) -> (r: usize)
        ensures
            r as int == slot(*self),
    {
        match self {
            CellState::Empty => 0,
            CellState::White => 1,
            CellState::Black => 2,
        }
    }

    /// The colour's name, as it is shown to a player.
    pub fn name(&self) -> (r: &'static str)
        ensures
            *self == CellState::Black ==> r@ == "Black"@,
            *self == CellState::White ==> r@ == "White"@,
            *self == CellState::Empty ==> r@ == "Empty"@,
    {
        match self {
            CellState::Black => "Black",
            CellState::White => "White",
            CellState::Empty => "Empty",
        }
    }
}

} // verus!
