//! A Wordle-solving engine: a fixed dictionary of 5-letter words is narrowed
//! toward a hidden answer using per-letter feedback from guesses, and the next
//! guess is chosen by estimating how evenly a word splits the remaining
//! candidate set.

pub mod game;
pub mod parser;
pub mod scorer;
pub mod solver;
pub mod wordle;

pub use game::{Game, GameState};
pub use wordle::{compare_words, CompareResult, State, Word, WordleError};
