use vstd::prelude::*;

verus! {

/// One die as the board sees it: only its face value counts towards the score.
#[derive(Clone, Copy, Debug, PartialEq, Eq, Structural)]
pub struct Dice {
    pub value: u8,
}

/// Why a placement was refused.
#[derive(Clone, Copy, Debug, PartialEq, Eq, Structural)]
pub enum DiceError {
    /// The column index is not below the board's capacity.
    InvalidColumn,
    /// The column already holds a die.
    ColumnOccupied,
}

} // verus!
