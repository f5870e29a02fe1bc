//! A simulator for a cooperative/competitive path-based dice game: players
//! dive along a linear path of treasure tiles, must turn back before a shared
//! oxygen supply runs out, and are scored on the treasures they bring home.
//!
//! The crate is organised as in a small game engine: the game state machine
//! (`deep_sea`), the treasure tiers and value assignment (`treasure`), the
//! pluggable decision makers (`solver`, `clayton`), and the turn engine with
//! the evaluation harness (`engine`).

pub mod clayton;
pub mod deep_sea;
pub mod engine;
pub mod error;
pub mod solver;
pub mod treasure;
