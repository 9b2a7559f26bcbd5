//! A game in progress: the candidates that are left and the number of
//! guesses made. Each guess with its judgments turns one state into the next.

use vstd::prelude::*;
use crate::engine::{filtered, suggestions};
use crate::reply::Reply;
use crate::word::Word;

verus! {

/// The number of candidates up to which all of them are listed.
pub const LISTED_AT_MOST: usize = 5;

/// The state of a game.
pub struct Session {
    /// The words that can still be the answer.
    pub words: Vec<Word>,
    /// How many guesses have been made.
    pub num_guesses: u64,
}

/// Where a game stands.
#[derive(Clone, Copy, Debug, PartialEq, Eq)]
pub enum Verdict {
    /// Several candidates are left: the game goes on.
    Undecided,
    /// One candidate is left: it is the answer.
    Answer(Word),
    /// No candidate is left: no word of the list matches the judgments given.
    EmptyResult,
}

/// Where a game with these candidates stands.
pub open spec fn verdict_of(words: Seq<Word>) -> Verdict {
    if words.len() == 0 {
        Verdict::EmptyResult
    } else if words.len() == 1 {
        Verdict::Answer(words[0])
    } else {
        Verdict::Undecided
    }
}

impl Session {
    /// A game that starts with the given candidates and no guess made.
    pub fn new(words: Vec<Word>) -> (session: Session)
        ensures
            session.words@ == words@,
            session.num_guesses == 0,
    {
        Session { words, num_guesses: 0 }
    }

    /// The state after one more guess: the candidates are narrowed by the
    /// guess and its judgments, and the guess is counted.
    pub fn after_guess(self, guess: &Word, replies: [Reply; 5]) -> (next: Session)
        requires
            self.num_guesses < u64::MAX,
        ensures
            next.words@ == filtered(guess@, replies@, self.words@),
            next.num_guesses == self.num_guesses + 1,
    {
        Session {
            words: guess.execute_guess(replies, self.words),
            num_guesses: self.num_guesses + 1,
        }
    }

    /// Where the game stands: decided when one candidate is left, failed when
    /// none is left.
    pub fn verdict(&self) -> (verdict: Verdict)
        ensures
            verdict == verdict_of(self.words@),
    {
        if self.words.len() == 0 {
            Verdict::EmptyResult
        } else if self.words.len() == 1 {
            Verdict::Answer(self.words[0])
        } else {
            Verdict::Undecided
        }
    }

    /// The words to suggest as the next guess.
    pub fn suggest(&self) -> (top: Vec<Word>)
        ensures
            top@ == suggestions(self.words@),
    {
        Word::suggest(&self.words)
    }

    /// Whether so few candidates are left that all of them are listed.
    pub fn lists_all(&self) -> (few: bool)
        ensures
            few == (self.words@.len() <= LISTED_AT_MOST),
    {
        self.words.len() <= LISTED_AT_MOST
    }
}

} // verus!
