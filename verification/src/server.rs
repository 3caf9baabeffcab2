//! The rules of the game server: sessions, the referee's answers, hints and the
//! queue.
pub mod answer;
pub mod catalog;
pub mod encoding;
pub mod guess_laws;
pub mod hint;
pub mod laws;
pub mod queue;
pub mod referee;
pub mod report_laws;
pub mod session;
