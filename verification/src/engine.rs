//! The two steps of a round: narrowing the candidates by the judgments that a
//! guess received, and ranking the candidates that are left to suggest the
//! next guess.

use vstd::prelude::*;
use crate::alphabet::{trimmed, ALPHABET_SIZE};
use crate::reply::Reply;
use crate::score::{Score, MAX_FACTOR};
use crate::tally::{
    lemma_letter_counts_bound, lemma_occurrences_bound, letter_counts, occurrences, score,
    LetterCounts,
};
use crate::word::{has_letter, has_repeat, spelling, Word, WordError, WORD_LENGTH};

verus! {

/// Number of words that are suggested at most.
pub const SUGGESTIONS: usize = 3;

/// Whether `word` can be the answer as far as the judgment on position `i` of
/// `guess` goes.
///
/// A letter judged as not in the word rules out every word that holds it
/// anywhere, also where the guess repeats the letter and another position of
/// it was judged as correct or in the wrong location.
pub open spec fn agrees_at(guess: Seq<char>, reply: Reply, word: Seq<char>, i: int) -> bool {
    match reply {
        Reply::Correct => word[i] == guess[i],
        Reply::WrongLocation => word[i] != guess[i] && has_letter(word, guess[i]),
        Reply::NotInWord => word[i] != guess[i] && !has_letter(word, guess[i]),
    }
}

/// Whether `word` can be the answer according to all five judgments.
pub open spec fn agrees(guess: Seq<char>, replies: Seq<Reply>, word: Seq<char>) -> bool {
    forall|i: int| 0 <= i < WORD_LENGTH ==> #[trigger] agrees_at(guess, replies[i], word, i)
}

/// The test that a candidate has to pass to stay in the list.
pub open spec fn survives(guess: Seq<char>, replies: Seq<Reply>) -> spec_fn(Word) -> bool {
    |word: Word| agrees(guess, replies, word@)
}

/// The candidates that are left after a guess: those that agree with the
/// judgments, in the order in which they stood.
pub open spec fn filtered(guess: Seq<char>, replies: Seq<Reply>, words: Seq<Word>) -> Seq<Word> {
    words.filter(survives(guess, replies))
}

/// The test that a candidate has to pass to be suggested: no letter twice.
pub open spec fn without_repeat() -> spec_fn(Word) -> bool {
    |word: Word| !has_repeat(word@)
}

/// The candidates that may be suggested, in the order in which they stand.
pub open spec fn eligible(words: Seq<Word>) -> Seq<Word> {
    words.filter(without_repeat())
}

/// Whether the word at position `i` of the pool comes before the word at
/// position `j` in the ranking: its score is higher, or the scores are equal
/// and it stands earlier.
pub open spec fn outranks(pool: Seq<Word>, counts: Seq<nat>, i: int, j: int) -> bool {
    let mine = score(pool[i]@, counts);
    let theirs = score(pool[j]@, counts);
    mine > theirs || (mine == theirs && i < j)
}

/// Whether the word at position `i` comes before every other word of the pool.
pub open spec fn leads(pool: Seq<Word>, counts: Seq<nat>, i: int) -> bool {
    &&& 0 <= i < pool.len()
    &&& forall|j: int| 0 <= j < pool.len() && j != i ==> #[trigger] outranks(pool, counts, i, j)
}

/// The position of the word that comes first in the ranking of the pool.
pub open spec fn leader(pool: Seq<Word>, counts: Seq<nat>) -> int {
    choose|i: int| leads(pool, counts, i)
}

/// The first `n` words of the ranking of the pool, or all of them where the
/// pool has fewer: the pool in descending order of score, words of equal
/// score in the order in which they stand.
pub open spec fn ranked(pool: Seq<Word>, counts: Seq<nat>, n: nat) -> Seq<Word>
    decreases n,
{
    if n == 0 || pool.len() == 0 {
        Seq::empty()
    } else {
        let first = leader(pool, counts);
        seq![pool[first]] + ranked(pool.remove(first), counts, (n - 1) as nat)
    }
}

/// The words to suggest for a list of candidates: the three best of those
/// without a repeated letter, scored against the frequency table of the
/// whole list.
pub open spec fn suggestions(words: Seq<Word>) -> Seq<Word> {
    ranked(eligible(words), letter_counts(words), SUGGESTIONS as nat)
}

/// Only one word of a pool comes before all the others.
pub proof fn lemma_leader_is_unique(pool: Seq<Word>, counts: Seq<nat>, i: int)
    requires
        leads(pool, counts, i),
    ensures
        leader(pool, counts) == i,
{
    let other = leader(pool, counts);
    assert(leads(pool, counts, other));
    if other != i {
        assert(outranks(pool, counts, i, other));
        assert(outranks(pool, counts, other, i));
    }
}

impl Word {
    /// Whether this word can be the answer when `guess` received `replies`.
    pub fn agrees_with(&self, guess: &Word, replies: &[Reply; 5]) -> (fits: bool)
        ensures
            fits == agrees(guess@, replies@, self@),
    {
        let mut i: usize = 0;
        while i < WORD_LENGTH
            invariant
                i <= WORD_LENGTH,
                forall|k: int| 0 <= k < i ==> #[trigger] agrees_at(guess@, replies@[k], self@, k),
            decreases WORD_LENGTH - i,
        {
            let c = guess.letter(i);
            let fits = match replies[i] {
                Reply::Correct => self.letter(i) == c,
                Reply::WrongLocation => self.letter(i) != c && self.contains(c),
                Reply::NotInWord => !self.contains(c),
            };
            proof {
                if has_letter(self@, c) == false {
                    self.lemma_length();
                    assert(self@[i as int] != c);
                }
            }
            if !fits {
                assert(!agrees_at(guess@, replies@[i as int], self@, i as int));
                return false;
            }
            i += 1;
        }
        true
    }

    /// Narrows the candidates by a guess, which is this word, and the
    /// judgments that it received: a candidate stays if and only if it agrees
    /// with all five of them. The candidates that stay keep their order.
    pub fn execute_guess(&self, result: [Reply; 5], words: Vec<Word>) -> (kept: Vec<Word>)
        ensures
            kept@ == filtered(self@, result@, words@),
            kept.len() <= words.len(),
            forall|i: int| 0 <= i < kept.len() ==> words@.contains(#[trigger] kept@[i]),
    {
        self.keep_agreeing(&result, &words)
    }

    /// The candidates of `words` that agree with the judgments on this guess.
    fn keep_agreeing(&self, result: &[Reply; 5], words: &Vec<Word>) -> (kept: Vec<Word>)
        ensures
            kept@ == filtered(self@, result@, words@),
            kept.len() <= words.len(),
            forall|i: int| 0 <= i < kept.len() ==> words@.contains(#[trigger] kept@[i]),
    {
        let ghost test = survives(self@, result@);
        let mut kept: Vec<Word> = Vec::new();
        let mut i: usize = 0;
        proof {
            reveal(Seq::filter);
            assert(words@.take(0).filter(test) =~= Seq::<Word>::empty());
        }
        while i < words.len()
            invariant
                i <= words.len(),
                test == survives(self@, result@),
                kept@ == words@.take(i as int).filter(test),
            decreases words.len() - i,
        {
            let word = words[i];
            proof {
                reveal(Seq::filter);
                assert(words@.take(i as int + 1).drop_last() =~= words@.take(i as int));
            }
            if word.agrees_with(self, result) {
                kept.push(word);
            }
            i += 1;
        }
        proof {
            assert(words@.take(words.len() as int) =~= words@);
            words@.lemma_filter_len(test);
            assert forall|i: int| 0 <= i < kept.len() implies words@.contains(
                #[trigger] kept@[i],
            ) by {
                assert(kept@.contains(kept@[i]));
                words@.lemma_filter_contains_rev(test, kept@[i]);
            }
        }
        kept
    }

    /// Suggests the next guesses for a list of candidates: at most three words
    /// without a repeated letter, the best first.
    ///
    /// Each letter is weighed by how often it occurs in the whole list, a
    /// word's score is the product of the weights of its five letters, and
    /// the words come in descending order of score, words of equal score in
    /// the order of the list.
    pub fn suggest(words: &Vec<Word>) -> (top: Vec<Word>)
        ensures
            top@ == suggestions(words@),
    {
        let counts = count_letters(words);
        let mut pool: Vec<Word> = Vec::new();
        let mut scores: Vec<Score> = Vec::new();
        let ghost test = without_repeat();
        let mut i: usize = 0;
        proof {
            reveal(Seq::filter);
            assert(words@.take(0).filter(test) =~= Seq::<Word>::empty());
        }
        while i < words.len()
            invariant
                i <= words.len(),
                test == without_repeat(),
                counts@ == letter_counts(words@),
                pool@ == words@.take(i as int).filter(test),
                scores.len() == pool.len(),
                forall|k: int|
                    0 <= k < pool.len() ==> (#[trigger] scores@[k])@ == score(pool@[k]@, counts@),
            decreases words.len() - i,
        {
            let word = words[i];
            proof {
                reveal(Seq::filter);
                assert(words@.take(i as int + 1).drop_last() =~= words@.take(i as int));
            }
            if !word.has_duplicate_letter() {
                let points = word.score_from_counts(&counts);
                pool.push(word);
                scores.push(points);
            }
            i += 1;
        }
        assert(words@.take(words.len() as int) =~= words@);
        let mut top: Vec<Word> = Vec::new();
        while top.len() < SUGGESTIONS && pool.len() > 0
            invariant
                top.len() <= SUGGESTIONS,
                scores.len() == pool.len(),
                forall|k: int|
                    0 <= k < pool.len() ==> (#[trigger] scores@[k])@ == score(pool@[k]@, counts@),
                top@ + ranked(pool@, counts@, (SUGGESTIONS - top.len()) as nat) == suggestions(
                    words@,
                ),
            decreases SUGGESTIONS - top.len(),
        {
            let first = leading(&scores, Ghost(pool@), Ghost(counts@));
            proof {
                lemma_leader_is_unique(pool@, counts@, first as int);
            }
            let ghost rest = ranked(
                pool@.remove(first as int),
                counts@,
                (SUGGESTIONS - top.len() - 1) as nat,
            );
            let ghost before = top@;
            let word = pool.remove(first);
            let _ = scores.remove(first);
            top.push(word);
            assert(top@ + rest =~= before + (seq![word] + rest));
        }
        assert(ranked(pool@, counts@, (SUGGESTIONS - top.len()) as nat) =~= Seq::<Word>::empty());
        assert(top@ + Seq::<Word>::empty() =~= top@);
        top
    }
}

/// Narrows the candidates by a guess given as text and the judgments that it
/// received. A guess that does not spell a word is refused with the reason,
/// and nothing is narrowed.
pub fn filter(guess: &str, feedback: &[Reply; 5], candidates: &Vec<Word>) -> (narrowed: Result<
    Vec<Word>,
    WordError,
>)
    ensures
        match spelling(trimmed(guess@)) {
            Ok(letters) => narrowed matches Ok(kept) && kept@ == filtered(
                letters,
                feedback@,
                candidates@,
            ),
            Err(e) => narrowed == Err::<Vec<Word>, WordError>(e),
        },
{
    match Word::from_str(guess) {
        Ok(word) => Ok(word.keep_agreeing(feedback, candidates)),
        Err(e) => Err(e),
    }
}

/// The frequency table of a list of words.
pub fn count_letters(words: &Vec<Word>) -> (counts: LetterCounts)
    ensures
        counts@ == letter_counts(words@),
{
    let mut counts = LetterCounts::new();
    let mut i: usize = 0;
    assert(words@.take(0) =~= Seq::<Word>::empty());
    while i < words.len()
        invariant
            i <= words.len(),
            counts@ == letter_counts(words@.take(i as int)),
        decreases words.len() - i,
    {
        let word = &words[i];
        proof {
            assert(words@.take(i as int + 1).drop_last() =~= words@.take(i as int));
            word.lemma_length();
            assert forall|k: int| 0 <= k < ALPHABET_SIZE implies counts@[k] + occurrences(
                word@,
                k,
            ) <= MAX_FACTOR by {
                assert forall|j: int| 0 <= j < i implies (#[trigger] words@.take(i as int)[j])@.len()
                    == WORD_LENGTH by {
                    words@.take(i as int)[j].lemma_length();
                }
                lemma_letter_counts_bound(words@.take(i as int), k);
                lemma_occurrences_bound(word@, k);
            }
        }
        word.update_counts(&mut counts);
        i += 1;
    }
    assert(words@.take(words.len() as int) =~= words@);
    counts
}

/// Finds the position of the highest score, the earliest of them where
/// several are equal.
fn leading(
    scores: &Vec<Score>,
    Ghost(pool): Ghost<Seq<Word>>,
    Ghost(counts): Ghost<Seq<nat>>,
) -> (first: usize)
    requires
        scores.len() > 0,
        scores.len() == pool.len(),
        forall|k: int| 0 <= k < pool.len() ==> (#[trigger] scores@[k])@ == score(pool[k]@, counts),
    ensures
        leads(pool, counts, first as int),
{
    let mut first: usize = 0;
    let mut j: usize = 1;
    while j < scores.len()
        invariant
            first < j <= scores.len(),
            scores.len() == pool.len(),
            forall|k: int|
                0 <= k < pool.len() ==> (#[trigger] scores@[k])@ == score(pool[k]@, counts),
            forall|k: int|
                0 <= k < j && k != first ==> #[trigger] outranks(pool, counts, first as int, k),
        decreases scores.len() - j,
    {
        if scores[j].exceeds(&scores[first]) {
            assert forall|k: int| 0 <= k < j + 1 && k != j implies #[trigger] outranks(
                pool,
                counts,
                j as int,
                k,
            ) by {
                if k != first {
                    assert(outranks(pool, counts, first as int, k));
                }
            }
            first = j;
        }
        j += 1;
    }
    first
}

} // verus!
