//! Error taxonomy of the simulator: invalid state-machine transitions signal
//! a defect in a strategy or in the turn engine; they abort the current game.

use vstd::prelude::*;

verus! {

/// The ways an operation on the game can be rejected.
#[derive(Clone, Copy, Debug, PartialEq, Eq, Structural)]
pub enum DeepSeaError {
    /// A movement was requested for a player who has already returned to the
    /// submarine; no transition leaves that position.
    InvalidMove,
    /// A treasure resolution was requested while the active player is not on
    /// an eligible tile.
    InvalidTreasure,
    /// The requested game mode is not offered by this library.
    UnsupportedMode,
}

pub type DeepSeaResult<T> = Result<T, DeepSeaError>;

} // verus!
