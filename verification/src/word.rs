//! Five-letter words over the alphabet of the game.

use vstd::prelude::*;
use crate::alphabet::{
    chars_of, fold, fold_char, is_letter, letter_slot, slot, trim_bounds, trimmed, ALPHABET_SIZE,
};

verus! {

/// Number of letters in a word.
pub const WORD_LENGTH: usize = 5;

/// Why a piece of text is not a word.
#[derive(Clone, Copy, Debug, PartialEq, Eq)]
pub enum WordError {
    /// The text does not have exactly five characters.
    WrongLength,
    /// The text has five characters, but one of them is no letter of the alphabet.
    InvalidLetter,
}

/// A word of the game: five letters of the alphabet, in lower case.
///
/// A word can only be made from text that spells one, so every word that
/// exists is well formed.
#[derive(Clone, Copy, Debug, PartialEq, Eq)]
pub struct Word {
    letters: [char; 5],
}

/// Whether `letters` spells a word: five letters of the alphabet.
pub open spec fn is_word(letters: Seq<char>) -> bool {
    &&& letters.len() == WORD_LENGTH
    &&& forall|i: int| 0 <= i < letters.len() ==> is_letter(#[trigger] letters[i])
}

/// `text` with each character folded to lower case.
pub open spec fn folded(text: Seq<char>) -> Seq<char> {
    Seq::new(text.len(), |i: int| fold(text[i]))
}

/// What five letter positions spell: the letters, folded to lower case, of
/// the word that they make, or the reason why they make none.
pub open spec fn spelling(text: Seq<char>) -> Result<Seq<char>, WordError> {
    if text.len() != WORD_LENGTH {
        Err(WordError::WrongLength)
    } else if !is_word(folded(text)) {
        Err(WordError::InvalidLetter)
    } else {
        Ok(folded(text))
    }
}

/// Whether the letter `c` occurs in `letters`.
pub open spec fn has_letter(letters: Seq<char>, c: char) -> bool {
    exists|i: int| 0 <= i < letters.len() && letters[i] == c
}

/// Whether some letter occurs twice in `letters`.
pub open spec fn has_repeat(letters: Seq<char>) -> bool {
    exists|i: int, j: int| 0 <= i < j < letters.len() && letters[i] == letters[j]
}

impl View for Word {
    type V = Seq<char>;

    closed spec fn view(&self) -> Seq<char> {
        self.letters@
    }
}

impl Word {
    #[verifier::type_invariant]
    spec fn well_formed(&self) -> bool {
        is_word(self.letters@)
    }

    /// Every word has five letters.
    pub proof fn lemma_length(self)
        ensures
            self@.len() == WORD_LENGTH,
    {
    }

    /// Two words with the same letters are the same word.
    pub proof fn lemma_same_letters(a: Word, b: Word)
        requires
            a@ == b@,
        ensures
            a == b,
    {
        assert(a.letters =~= b.letters);
    }

    /// Reads the characters `chars[start..end]` as a word.
    fn from_range(chars: &[char], start: usize, end: usize) -> (read: Result<Word, WordError>)
        requires
            start <= end <= chars.len(),
        ensures
            match read {
                Ok(word) => spelling(chars@.subrange(start as int, end as int)) == Ok::<
                    Seq<char>,
                    WordError,
                >(word@),
                Err(e) => spelling(chars@.subrange(start as int, end as int)) == Err::<
                    Seq<char>,
                    WordError,
                >(e),
            },
    {
        let ghost text = chars@.subrange(start as int, end as int);
        if end - start != WORD_LENGTH {
            return Err(WordError::WrongLength);
        }
        let mut letters: [char; 5] = ['a'; 5];
        let mut i: usize = 0;
        while i < WORD_LENGTH
            invariant
                i <= WORD_LENGTH,
                end - start == WORD_LENGTH,
                end <= chars.len(),
                text == chars@.subrange(start as int, end as int),
                forall|k: int| 0 <= k < i ==> letters@[k] == fold(text[k]) && is_letter(letters@[k]),
                forall|k: int| i <= k < WORD_LENGTH ==> letters@[k] == 'a',
            decreases WORD_LENGTH - i,
        {
            let c = fold_char(chars[start + i]);
            if letter_slot(c).is_none() {
                assert(!is_letter(folded(text)[i as int]));
                return Err(WordError::InvalidLetter);
            }
            letters[i] = c;
            i += 1;
        }
        assert(letters@ =~= folded(text));
        Ok(Word { letters })
    }

    /// Reads a word from text: white space at both ends is ignored, and what
    /// is left must be five letters of the alphabet, each in either case: a
    /// capital, `Å`, `Ä` and `Ö` as well as `A` to `Z`, is read as its
    /// lower-case letter.
    pub fn from_str(s: &str) -> (read: Result<Word, WordError>)
        ensures
            match read {
                Ok(word) => spelling(trimmed(s@)) == Ok::<Seq<char>, WordError>(word@),
                Err(e) => spelling(trimmed(s@)) == Err::<Seq<char>, WordError>(e),
            },
    {
        let chars = chars_of(s);
        Word::from_chars(chars.as_slice())
    }

    /// Reads a word from characters, as [`Word::from_str`] reads it from text.
    pub fn from_chars(chars: &[char]) -> (read: Result<Word, WordError>)
        ensures
            match read {
                Ok(word) => spelling(trimmed(chars@)) == Ok::<Seq<char>, WordError>(word@),
                Err(e) => spelling(trimmed(chars@)) == Err::<Seq<char>, WordError>(e),
            },
    {
        let (start, end) = trim_bounds(chars);
        Word::from_range(chars, start, end)
    }

    /// Reads a word from a record of five bytes, each byte one letter: the
    /// character with that code, so that `å`, `ä` and `ö` are the bytes
    /// `0xE5`, `0xE4` and `0xF6` and their capitals `0xC5`, `0xC4` and `0xD6`.
    /// Capitals are read as their lower-case letters; nothing is trimmed.
    pub fn from_bytes(record: &[u8]) -> (read: Result<Word, WordError>)
        ensures
            match read {
                Ok(word) => spelling(byte_chars(record@)) == Ok::<Seq<char>, WordError>(word@),
                Err(e) => spelling(byte_chars(record@)) == Err::<Seq<char>, WordError>(e),
            },
    {
        let mut chars: Vec<char> = Vec::new();
        let mut i: usize = 0;
        while i < record.len()
            invariant
                i <= record.len(),
                chars@ == byte_chars(record@.take(i as int)),
            decreases record.len() - i,
        {
            chars.push(record[i] as char);
            i += 1;
            assert(chars@ =~= byte_chars(record@.take(i as int)));
        }
        assert(record@.take(record.len() as int) =~= record@);
        assert(chars@.subrange(0, chars.len() as int) =~= chars@);
        Word::from_range(chars.as_slice(), 0, chars.len())
    }

    /// The word as text: its five letters.
    pub fn to_string(&self) -> (text: String)
        ensures
            text@ == self@,
    {
        let mut text = String::new();
        let mut i: usize = 0;
        while i < WORD_LENGTH
            invariant
                i <= WORD_LENGTH,
                text@ == self@.take(i as int),
            decreases WORD_LENGTH - i,
        {
            push_char(&mut text, self.letters[i]);
            i += 1;
            assert(text@ =~= self@.take(i as int));
        }
        assert(self@.take(WORD_LENGTH as int) =~= self@);
        text
    }

    /// The letter at position `i`.
    pub fn letter(&self, i: usize) -> (c: char)
        requires
            i < WORD_LENGTH,
        ensures
            c == self@[i as int],
            is_letter(c),
    {
        proof {
            use_type_invariant(self);
        }
        self.letters[i]
    }

    /// The alphabet slot of the letter at position `i`.
    pub fn slot_at(&self, i: usize) -> (k: usize)
        requires
            i < WORD_LENGTH,
        ensures
            is_letter(self@[i as int]),
            k == slot(self@[i as int]),
            k < ALPHABET_SIZE,
    {
        proof {
            use_type_invariant(self);
        }
        letter_slot(self.letters[i]).unwrap()
    }

    /// Whether the letter `c` occurs in the word.
    pub fn contains(&self, c: char) -> (found: bool)
        ensures
            found == has_letter(self@, c),
    {
        self.letters[0] == c || self.letters[1] == c || self.letters[2] == c || self.letters[3]
            == c || self.letters[4] == c
    }

    /// Whether some letter occurs more than once in the word.
    pub fn has_duplicate_letter(&self) -> (repeated: bool)
        ensures
            repeated == has_repeat(self@),
    {
        self.letters[0] == self.letters[1] || self.letters[0] == self.letters[2] || self.letters[0]
            == self.letters[3] || self.letters[0] == self.letters[4] || self.letters[1]
            == self.letters[2] || self.letters[1] == self.letters[3] || self.letters[1]
            == self.letters[4] || self.letters[2] == self.letters[3] || self.letters[2]
            == self.letters[4] || self.letters[3] == self.letters[4]
    }
}

/// `String::push` of the standard library, which appends one character to
/// the end of a string. The claim, taken on trust: afterwards the string is
/// what it was, followed by `c`.
#[verifier::external_body]
fn push_char(text: &mut String, c: char)
    ensures
        final(text)@ == old(text)@.push(c),
{
    text.push(c);
}

/// The characters that the bytes of a record stand for: for each byte the
/// character with that code.
pub open spec fn byte_chars(bytes: Seq<u8>) -> Seq<char> {
    Seq::new(bytes.len(), |i: int| bytes[i] as char)
}

} // verus!
