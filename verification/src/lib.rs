//! A helper for five-letter word guessing games.
//!
//! From a list of candidate words and the judgments that each guess received,
//! the helper narrows the candidates and suggests the next guess:
//!
//! - [`word`] and [`alphabet`]: the words of the game and their letters;
//! - [`store`]: reading a word list;
//! - [`reply`]: the judgment on each letter of a guess;
//! - [`engine`]: narrowing the candidates and ranking them for a suggestion;
//! - [`tally`] and [`score`]: letter frequencies and the scores made of them;
//! - [`session`]: the state of a game from guess to guess;
//! - [`laws`]: what holds of narrowing and suggesting for every list.

pub mod alphabet;
pub mod engine;
pub mod laws;
pub mod reply;
pub mod score;
pub mod session;
pub mod store;
pub mod tally;
pub mod word;
