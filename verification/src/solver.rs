//! Pluggable decision makers: the capability set of an agent is a direction
//! choice and a take-or-ignore choice, both with read-only access to the
//! game. The engine holds agents behind a flat dispatch enum.

use vstd::prelude::*;

use crate::clayton::solver::{
    clayton2_take, clayton_direction, clayton_take, ClaytonSolver, ClaytonSolver2,
};
use crate::deep_sea::{diving_index, DeepSea, DiveDirection, Tile, TreasureDecision};

verus! {

/// Relies on `rand::random::<bool>`: an arbitrary boolean from the thread
/// generator; nothing is promised of its value.
#[verifier::external_body]
fn random_flag() -> bool {
    rand::random::<bool>()
}

/// The uniformly random baseline agent: it picks any legal answer. It is
/// used as an opponent population; nothing more is promised of its choices
/// than their legality.
#[derive(Clone, Copy, Default)]
pub struct RandomSolver {}

impl RandomSolver {
    /// Any direction; both are legal whenever the agent is consulted.
    pub fn choose_direction(&mut self, deep_sea: &DeepSea, player_idx: usize) -> (r: DiveDirection)
        requires
            deep_sea@.wf(),
            (player_idx as int) < deep_sea@.players.len(),
    {
        if random_flag() {
            DiveDirection::Down
        } else {
            DiveDirection::Up
        }
    }

    /// A coin flip on a loaded tile; a bare tile leaves only `Ignore`.
    pub fn take_treasure(&mut self, deep_sea: &DeepSea, player_idx: usize) -> (r: TreasureDecision)
        requires
            deep_sea@.wf(),
            (player_idx as int) < deep_sea@.players.len(),
            deep_sea@.players[player_idx as int].pos is Diving,
        ensures
            r is Take ==> deep_sea@.path[diving_index(deep_sea@.players[player_idx as int].pos)] is Treasure,
    {
        let player = &deep_sea.players()[player_idx];
        let pos = player.position();
        let i = match pos.as_diving() {
            Some(i) => i,
            None => vstd::pervasive::unreached(),
        };
        match deep_sea.path()[i] {
            Tile::Treasure(_) => {
                if random_flag() {
                    TreasureDecision::Take
                } else {
                    TreasureDecision::Ignore
                }
            }
            Tile::Empty => TreasureDecision::Ignore,
        }
    }
}

/// One agent of the population, dispatched flatly: the two forecast-backed
/// agents and the random baseline.
#[derive(Clone, Copy)]
pub enum Solver {
    Clayton(ClaytonSolver),
    Clayton2(ClaytonSolver2),
    Random(RandomSolver),
}

impl Solver {
    /// The agent's direction for the player's next move. Both deterministic
    /// agents follow the grab-one-and-come-home rule; the baseline answers
    /// freely.
    pub fn choose_direction(&mut self, deep_sea: &DeepSea, player_idx: usize) -> (r: DiveDirection)
        requires
            deep_sea@.wf(),
            (player_idx as int) < deep_sea@.players.len(),
        ensures
            *final(self) == *old(self),
            (*old(self)) is Clayton ==> r == clayton_direction(deep_sea@, player_idx as int),
            (*old(self)) is Clayton2 ==> r == clayton_direction(deep_sea@, player_idx as int),
    {
        match self {
            Solver::Clayton(s) => s.choose_direction(deep_sea, player_idx),
            Solver::Clayton2(s) => s.choose_direction(deep_sea, player_idx),
            Solver::Random(s) => s.choose_direction(deep_sea, player_idx),
        }
    }

    /// The agent's answer for the tile under the diving player. Whatever
    /// the agent, a `Take` only ever comes back for a loaded tile.
    pub fn take_treasure(&mut self, deep_sea: &DeepSea, player_idx: usize) -> (r: TreasureDecision)
        requires
            deep_sea@.wf(),
            (player_idx as int) < deep_sea@.players.len(),
            deep_sea@.players[player_idx as int].pos is Diving,
        ensures
            *final(self) == *old(self),
            r is Take ==> deep_sea@.path[diving_index(deep_sea@.players[player_idx as int].pos)] is Treasure,
            (*old(self)) is Clayton ==> r == clayton_take(deep_sea@, player_idx as int),
            (*old(self)) is Clayton2 ==> r == clayton2_take(deep_sea@, player_idx as int),
    {
        match self {
            Solver::Clayton(s) => s.take_treasure(deep_sea, player_idx),
            Solver::Clayton2(s) => s.take_treasure(deep_sea, player_idx),
            Solver::Random(s) => s.take_treasure(deep_sea, player_idx),
        }
    }
}

} // verus!
