//! Wordle solver: a feedback state machine for guesses against a hidden
//! five-letter answer, letter statistics over an answer corpus, and a
//! deterministic ranking of candidate next guesses.

pub mod word;
pub mod stats;
pub mod game;
pub mod evaluate;
pub mod rank;
