//! Surveys of the game tree: how many positions there are at each level and how many
//! of them a table has.
pub mod bitvec;
pub mod coverage;
pub mod depth;
pub mod laws;
pub mod levels;
pub mod timing;
