//! The judgment that a guess receives for each of its letters, and how a
//! judgment is keyed in and shown.

use vstd::prelude::*;
use crate::alphabet::{chars_of, trim_bounds, trimmed};
use crate::word::{has_letter, Word, WORD_LENGTH};

verus! {

/// The judgment on one letter of a guess.
#[derive(Clone, Copy, Debug, PartialEq, Eq, Structural)]
pub enum Reply {
    /// The answer has this letter at this position.
    Correct,
    /// The letter is present in the answer, but not at this position.
    WrongLocation,
    /// The letter is absent from the answer.
    NotInWord,
}

/// A colour of the terminal, of those that the game shows.
#[derive(Clone, Copy, Debug, PartialEq, Eq, Structural)]
pub enum Tint {
    /// Black.
    Black,
    /// Green.
    Green,
    /// Bright yellow.
    BrightYellow,
    /// White.
    White,
}

/// How a judged letter is shown: the colour behind it and the colour of the
/// letter itself.
#[derive(Clone, Copy, Debug, PartialEq, Eq, Structural)]
pub struct Style {
    /// The colour behind the letter.
    pub background: Tint,
    /// The colour of the letter.
    pub foreground: Tint,
}

/// The judgment that a key stands for: `C` for correct, `W` for the wrong
/// location and `N` for not in the word, in either case. Any other text
/// stands for none.
pub open spec fn key_reply(key: Seq<char>) -> Option<Reply> {
    if key.len() != 1 {
        None
    } else if key[0] == 'C' || key[0] == 'c' {
        Some(Reply::Correct)
    } else if key[0] == 'W' || key[0] == 'w' {
        Some(Reply::WrongLocation)
    } else if key[0] == 'N' || key[0] == 'n' {
        Some(Reply::NotInWord)
    } else {
        None
    }
}

/// The style in which a judged letter is shown: black on green when it is
/// correct, black on bright yellow when it is in the wrong location, white on
/// black when it is not in the word.
pub open spec fn reply_style(reply: Reply) -> Style {
    match reply {
        Reply::Correct => Style { background: Tint::Green, foreground: Tint::Black },
        Reply::WrongLocation => Style { background: Tint::BrightYellow, foreground: Tint::Black },
        Reply::NotInWord => Style { background: Tint::Black, foreground: Tint::White },
    }
}

/// The judgment that the letter at position `i` of `guess` receives when
/// `answer` is the hidden word. A letter counts as present whenever the
/// answer holds it anywhere, however often the guess repeats it.
pub open spec fn judgment(answer: Seq<char>, guess: Seq<char>, i: int) -> Reply {
    if answer[i] == guess[i] {
        Reply::Correct
    } else if has_letter(answer, guess[i]) {
        Reply::WrongLocation
    } else {
        Reply::NotInWord
    }
}

/// The five judgments that `guess` receives when `answer` is the hidden word.
pub open spec fn feedback_of(answer: Seq<char>, guess: Seq<char>) -> Seq<Reply> {
    Seq::new(WORD_LENGTH as nat, |i: int| judgment(answer, guess, i))
}

impl Reply {
    /// Reads a judgment from the text of a key press; white space around the
    /// key is ignored.
    pub fn from_key(text: &str) -> (reply: Option<Reply>)
        ensures
            reply == key_reply(trimmed(text@)),
    {
        let chars = chars_of(text);
        let (start, end) = trim_bounds(chars.as_slice());
        if end - start != 1 {
            return None;
        }
        let key = chars[start];
        assert(key == chars@.subrange(start as int, end as int)[0]);
        if key == 'C' || key == 'c' {
            Some(Reply::Correct)
        } else if key == 'W' || key == 'w' {
            Some(Reply::WrongLocation)
        } else if key == 'N' || key == 'n' {
            Some(Reply::NotInWord)
        } else {
            None
        }
    }

    /// The style in which a letter with this judgment is shown.
    pub fn style(&self) -> (style: Style)
        ensures
            style == reply_style(*self),
    {
        match self {
            Reply::Correct => Style { background: Tint::Green, foreground: Tint::Black },
            Reply::WrongLocation => Style {
                background: Tint::BrightYellow,
                foreground: Tint::Black,
            },
            Reply::NotInWord => Style { background: Tint::Black, foreground: Tint::White },
        }
    }
}

impl Word {
    /// The judgments that `guess` receives when this word is the hidden one.
    pub fn feedback_for(&self, guess: &Word) -> (replies: [Reply; 5])
        ensures
            replies@ == feedback_of(self@, guess@),
    {
        let mut replies: [Reply; 5] = [Reply::NotInWord; 5];
        let mut i: usize = 0;
        while i < WORD_LENGTH
            invariant
                i <= WORD_LENGTH,
                forall|k: int| 0 <= k < i ==> replies@[k] == judgment(self@, guess@, k),
            decreases WORD_LENGTH - i,
        {
            let c = guess.letter(i);
            let reply = if self.letter(i) == c {
                Reply::Correct
            } else if self.contains(c) {
                Reply::WrongLocation
            } else {
                Reply::NotInWord
            };
            replies[i] = reply;
            i += 1;
        }
        assert(replies@ =~= feedback_of(self@, guess@));
        replies
    }
}

} // verus!
