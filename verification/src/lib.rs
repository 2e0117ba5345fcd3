//! Decision support for a five-letter word-guessing game with coloured,
//! positional feedback.

pub mod chunks;
pub mod count;
pub mod feedback;
pub mod game;
pub mod input;
pub mod inverse;
pub mod narrowing;
pub mod ranking;
pub mod score;

pub use feedback::{Guess, GuessedCharacter};
pub use game::Wordle;
