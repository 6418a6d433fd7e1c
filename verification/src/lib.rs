//! Verified scoring of first guesses for a five-letter word game.
//!
//! A guess is scored against a fixed word list: for every word that could be
//! the hidden answer, the feedback the guess would receive is turned into a
//! set of constraints, and the words of the list that still satisfy them are
//! counted. The sum of those counts, divided by the length of the list, is
//! the expected number of candidates left after playing the guess.

pub mod word;
pub mod constraints;
pub mod score;
pub mod resume;
pub mod run;
