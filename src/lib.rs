//! A fixed-capacity board of dice: `N` columns, each empty or holding one die,
//! with placement, ranged removal, a fullness query and a score.

pub mod board;
pub mod dice;
pub mod laws;
