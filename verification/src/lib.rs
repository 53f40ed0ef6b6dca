//! A verified core for a five-letter word-guessing game.
//!
//! The scoring engine classifies each letter of a guess against a hidden
//! target word, handling duplicate letters with a two-pass algorithm, and
//! the dictionary module validates guesses and selects targets from word
//! lists supplied by the caller.

pub mod dictionary;
pub mod input;
pub mod wordle;
