//! Reading a word list: the records of a source are read one by one, and
//! those that spell a word make the list of candidates.

use vstd::prelude::*;
use vstd::slice::slice_subrange;
use crate::alphabet::{chars_of, trimmed};
use crate::word::{byte_chars, spelling, Word, WordError, WORD_LENGTH};

verus! {

/// The lines of a text: the pieces between its line feeds. A text of `n`
/// line feeds has `n + 1` lines, of which any may be empty.
pub open spec fn lines(text: Seq<char>) -> Seq<Seq<char>>
    decreases text.len(),
{
    if text.len() == 0 {
        seq![Seq::empty()]
    } else {
        let before = lines(text.drop_last());
        if text.last() == '\n' {
            before.push(Seq::empty())
        } else {
            before.drop_last().push(before.last().push(text.last()))
        }
    }
}

/// The records of a sequence of bytes: its consecutive pieces of five bytes.
/// Bytes at the end that do not fill a record belong to none.
pub open spec fn records(data: Seq<u8>) -> Seq<Seq<char>> {
    Seq::new(
        (data.len() / WORD_LENGTH as nat) as nat,
        |k: int| byte_chars(data.subrange(WORD_LENGTH * k, WORD_LENGTH * k + WORD_LENGTH)),
    )
}

/// The letters of the word that a line spells, if it spells one. White space
/// at the ends of the line is ignored.
pub open spec fn line_word(line: Seq<char>) -> Option<Seq<char>> {
    match spelling(trimmed(line)) {
        Ok(letters) => Some(letters),
        Err(_) => None,
    }
}

/// The letters of the word that a record spells, if it spells one.
pub open spec fn record_word(record: Seq<char>) -> Option<Seq<char>> {
    match spelling(record) {
        Ok(letters) => Some(letters),
        Err(_) => None,
    }
}

/// The words that a text of lines holds, each by its letters: one for each
/// line that spells a word, in the order of the lines.
pub open spec fn line_words(text: Seq<char>) -> Seq<Seq<char>> {
    lines(text).filter_map(|line: Seq<char>| line_word(line))
}

/// The words that a sequence of bytes holds, each by its letters: one for
/// each record that spells a word, in the order of the records.
pub open spec fn record_words(data: Seq<u8>) -> Seq<Seq<char>> {
    records(data).filter_map(|record: Seq<char>| record_word(record))
}

/// The letters of each word of a list.
pub open spec fn spelled(words: Seq<Word>) -> Seq<Seq<char>> {
    Seq::new(words.len(), |i: int| words[i]@)
}

/// Reads a word list from text with one word on each line. A line that does
/// not spell a word is skipped; the words keep the order of their lines, and
/// a word that occurs twice is kept twice.
pub fn load_words(text: &str) -> (words: Vec<Word>)
    ensures
        spelled(words@) == line_words(text@),
{
    let chars = chars_of(text);
    let ghost read = |line: Seq<char>| line_word(line);
    let ghost mut done: Seq<Seq<char>> = Seq::empty();
    let mut words: Vec<Word> = Vec::new();
    let mut start: usize = 0;
    let mut i: usize = 0;
    proof {
        assert(chars@.take(0) =~= Seq::<char>::empty());
        assert(done.push(chars@.subrange(0, 0)) =~= lines(chars@.take(0)));
        assert(spelled(words@) =~= done.filter_map(read));
    }
    while i < chars.len()
        invariant
            start <= i <= chars.len(),
            read == |line: Seq<char>| line_word(line),
            lines(chars@.take(i as int)) == done.push(chars@.subrange(start as int, i as int)),
            spelled(words@) == done.filter_map(read),
        decreases chars.len() - i,
    {
        let ghost line = chars@.subrange(start as int, i as int);
        proof {
            assert(chars@.take(i as int + 1).drop_last() =~= chars@.take(i as int));
            assert(done.push(line).drop_last() =~= done);
        }
        if chars[i] == '\n' {
            let ghost before = spelled(words@);
            match Word::from_chars(slice_subrange(chars.as_slice(), start, i)) {
                Ok(word) => {
                    words.push(word);
                    assert(spelled(words@) =~= before + seq![word@]);
                },
                Err(_) => {},
            }
            proof {
                assert(done.push(line).drop_last() =~= done);
                done = done.push(line);
                assert(chars@.subrange(i as int + 1, i as int + 1) =~= Seq::<char>::empty());
            }
            start = i + 1;
        } else {
            assert(chars@.subrange(start as int, i as int + 1) =~= line.push(chars@[i as int]));
        }
        i += 1;
    }
    let ghost line = chars@.subrange(start as int, i as int);
    let ghost before = spelled(words@);
    match Word::from_chars(slice_subrange(chars.as_slice(), start, i)) {
        Ok(word) => {
            words.push(word);
            assert(spelled(words@) =~= before + seq![word@]);
        },
        Err(_) => {},
    }
    proof {
        assert(done.push(line).drop_last() =~= done);
        assert(chars@.take(chars.len() as int) =~= chars@);
    }
    words
}

/// Reads a word list from records of five bytes, each byte one letter. A
/// record that does not spell a word is skipped; the words keep the order of
/// their records, and a word that occurs twice is kept twice.
pub fn load_records(data: &[u8]) -> (words: Vec<Word>)
    ensures
        spelled(words@) == record_words(data@),
{
    let ghost read = |record: Seq<char>| record_word(record);
    let count: usize = data.len() / WORD_LENGTH;
    let mut words: Vec<Word> = Vec::new();
    let mut k: usize = 0;
    proof {
        assert(records(data@).take(0) =~= Seq::<Seq<char>>::empty());
        assert(spelled(words@) =~= records(data@).take(0).filter_map(read));
    }
    while k < count
        invariant
            k <= count,
            count == data.len() / WORD_LENGTH,
            read == |record: Seq<char>| record_word(record),
            spelled(words@) == records(data@).take(k as int).filter_map(read),
        decreases count - k,
    {
        let ghost before = spelled(words@);
        proof {
            assert(records(data@).take(k as int + 1).drop_last() =~= records(data@).take(k as int));
        }
        match Word::from_bytes(slice_subrange(data, WORD_LENGTH * k, WORD_LENGTH * k + WORD_LENGTH)) {
            Ok(word) => {
                words.push(word);
                assert(spelled(words@) =~= before + seq![word@]);
            },
            Err(_) => {},
        }
        k += 1;
    }
    assert(records(data@).take(count as int) =~= records(data@));
    words
}

} // verus!
