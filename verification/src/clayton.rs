//! Strategies built on a forward-looking win forecast.

pub mod solver;
