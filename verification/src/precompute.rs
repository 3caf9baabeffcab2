//! Precomputing the first levels of the game tree: which positions there are, in
//! which order, and who solves them.
pub mod label;
pub mod parts;
pub mod shard;
pub mod shard_laws;
pub mod walk;
pub mod walk_laws;
pub mod walk_sound;
