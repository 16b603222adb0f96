//! The rules of a word-guessing game.
//!
//! A player names one letter per round. A letter that stands in the secret
//! word at a place not yet found uncovers the first such place; any other
//! letter costs one of the allowed wrong guesses.

pub mod game;
pub mod records;
pub mod text;
pub mod words;
