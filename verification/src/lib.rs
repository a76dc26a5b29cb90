//! A solver for a Wordle-style word-guessing puzzle.
//!
//! A [`dictionary::Dictionary`] groups known words by character count, a
//! [`puzzle::Puzzle`] holds one hidden word and scores guesses against it,
//! and a [`solver::NaiveSolver`] narrows the candidate set with the feedback
//! of each guess until the hidden word is found or no candidate is left.

pub mod dictionary;
pub mod puzzle;
pub mod solver;
pub mod text;

mod randomness;
