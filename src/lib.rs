//! Engine of a sliding-tile puzzle: board representation, solvable shuffles,
//! move legality, move application and win detection.

pub mod tile;
pub mod order;
pub mod game;
pub mod laws;
