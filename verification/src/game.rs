//! The game of hangman: its rules and its visible state.
pub mod letters;
pub mod rules;
pub mod state;
pub mod value_laws;

pub use letters::{letter_bit, LetterSet};
pub use state::{GameState, Outcome, Pattern};
