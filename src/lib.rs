//! A decision engine for the connection game Y: a triangular board, a
//! connectivity-based evaluator, and a bounded-depth minimax move selector.
use vstd::prelude::*;

pub mod coords;
pub mod game;
pub mod heuristic;
pub mod minimax;

pub use crate::coords::{Coordinates, MAX_BOARD_SIZE, MAX_CELLS};
pub use crate::game::{GameY, GameYError, Movement, PlayerId, PlayerSet};
pub use crate::heuristic::{Heuristic, SetBasedHeuristic, LOSS_SCORE, WIN_SCORE};
pub use crate::minimax::MinimaxBot;

verus! {

} // verus!
