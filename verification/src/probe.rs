//! Looking into a table: paths through the game, and what is stored along them.
pub mod laws;
pub mod states;
pub mod steps;
