//! Optimal play for hangman against a referee who never commits to a word.
pub mod bench;
pub mod dictionary;
pub mod game;
pub mod merge;
pub mod precompute;
pub mod probe;
pub mod seqs;
pub mod server;
pub mod solver;
pub mod sorting;
pub mod survey;
pub mod text;
pub mod trace;
pub mod trace_laws;
