//! The letter frequency table: for each letter of the alphabet, how often it
//! occurs in a list of words.

use vstd::prelude::*;
use crate::alphabet::{is_letter, slot, ALPHABET_SIZE};
use crate::score::{
    lemma_max_product_fits, lemma_max_product_grows, lemma_max_product_is_monotonic, max_product,
    Score, MAX_FACTOR,
};
use crate::word::{Word, WORD_LENGTH};

verus! {

/// How many positions of `letters` hold the letter of slot `k`.
pub open spec fn occurrences(letters: Seq<char>, k: int) -> nat
    decreases letters.len(),
{
    if letters.len() == 0 {
        0
    } else {
        occurrences(letters.drop_last(), k) + if is_letter(letters.last()) && slot(letters.last())
            == k {
            1nat
        } else {
            0nat
        }
    }
}

/// The table without any word counted: zero for each of the 29 slots.
pub open spec fn no_counts() -> Seq<nat> {
    Seq::new(ALPHABET_SIZE as nat, |k: int| 0nat)
}

/// The table `counts` after the letters of one more word are counted. A
/// letter that the word repeats is counted once for each time it occurs.
pub open spec fn tallied(counts: Seq<nat>, letters: Seq<char>) -> Seq<nat> {
    Seq::new(counts.len(), |k: int| counts[k] + occurrences(letters, k))
}

/// The frequency table of a list of words: slot by slot, how often the
/// letter occurs in all the words together.
pub open spec fn letter_counts(words: Seq<Word>) -> Seq<nat>
    decreases words.len(),
{
    if words.len() == 0 {
        no_counts()
    } else {
        tallied(letter_counts(words.drop_last()), words.last()@)
    }
}

/// What a letter contributes to a score: its frequency in the table, or 1 for
/// a letter that the table has not seen, so that one unseen letter does not
/// bring the whole product to zero.
pub open spec fn letter_weight(counts: Seq<nat>, c: char) -> nat {
    if counts[slot(c)] == 0 {
        1
    } else {
        counts[slot(c)]
    }
}

/// The score of a word against a table: the product of the weights of its
/// letters, one factor for each position.
pub open spec fn score(letters: Seq<char>, counts: Seq<nat>) -> nat
    decreases letters.len(),
{
    if letters.len() == 0 {
        1
    } else {
        score(letters.drop_last(), counts) * letter_weight(counts, letters.last())
    }
}

/// A letter frequency table. No count in it exceeds [`MAX_FACTOR`].
pub struct LetterCounts {
    counts: [u128; 29],
}

impl View for LetterCounts {
    type V = Seq<nat>;

    closed spec fn view(&self) -> Seq<nat> {
        Seq::new(ALPHABET_SIZE as nat, |k: int| self.counts@[k] as nat)
    }
}

/// A word has at most as many occurrences of a letter as it has positions.
pub proof fn lemma_occurrences_bound(letters: Seq<char>, k: int)
    ensures
        occurrences(letters, k) <= letters.len(),
    decreases letters.len(),
{
    if letters.len() > 0 {
        lemma_occurrences_bound(letters.drop_last(), k);
    }
}

/// In the table of `n` words no count exceeds `5 * n`.
pub proof fn lemma_letter_counts_bound(words: Seq<Word>, k: int)
    requires
        0 <= k < ALPHABET_SIZE,
        forall|i: int| 0 <= i < words.len() ==> (#[trigger] words[i])@.len() == WORD_LENGTH,
    ensures
        letter_counts(words).len() == ALPHABET_SIZE,
        letter_counts(words)[k] <= WORD_LENGTH * words.len(),
    decreases words.len(),
{
    if words.len() > 0 {
        lemma_letter_counts_bound(words.drop_last(), k);
        lemma_occurrences_bound(words.last()@, k);
    }
}

impl LetterCounts {
    #[verifier::type_invariant]
    spec fn within_limit(&self) -> bool {
        forall|k: int| 0 <= k < ALPHABET_SIZE ==> self.counts@[k] <= MAX_FACTOR
    }

    /// The table without any word counted.
    pub fn new() -> (table: LetterCounts)
        ensures
            table@ == no_counts(),
    {
        let table = LetterCounts { counts: [0; 29] };
        assert(table@ =~= no_counts());
        table
    }

    /// The count of the letter of slot `k`.
    pub fn count(&self, k: usize) -> (n: u128)
        requires
            k < ALPHABET_SIZE,
        ensures
            n == self@[k as int],
            n <= MAX_FACTOR,
            self@.len() == ALPHABET_SIZE,
    {
        proof {
            use_type_invariant(self);
        }
        self.counts[k]
    }
}

impl Word {
    /// Counts the letters of this word into the table, each position once.
    ///
    /// The counts that the word raises must have room below [`MAX_FACTOR`].
    pub fn update_counts(&self, counts: &mut LetterCounts)
        requires
            forall|k: int|
                0 <= k < ALPHABET_SIZE ==> old(counts)@[k] + occurrences(self@, k) <= MAX_FACTOR,
        ensures
            final(counts)@ == tallied(old(counts)@, self@),
    {
        proof {
            use_type_invariant(&*counts);
            self.lemma_length();
        }
        let mut i: usize = 0;
        while i < WORD_LENGTH
            invariant
                i <= WORD_LENGTH,
                self@.len() == WORD_LENGTH,
                forall|k: int|
                    0 <= k < ALPHABET_SIZE ==> old(counts).counts@[k] + occurrences(self@, k)
                        <= MAX_FACTOR,
                forall|k: int|
                    0 <= k < ALPHABET_SIZE ==> #[trigger] counts.counts@[k] == old(
                        counts,
                    ).counts@[k] + occurrences(self@.take(i as int), k),
            decreases WORD_LENGTH - i,
        {
            let k = self.slot_at(i);
            let ghost before = counts.counts@;
            proof {
                assert(self@.take(i as int + 1).drop_last() =~= self@.take(i as int));
                assert forall|j: int| 0 <= j < ALPHABET_SIZE implies occurrences(
                    self@.take(i as int + 1),
                    j,
                ) <= occurrences(self@, j) && before[j] <= old(counts).counts@[j] + occurrences(
                    self@.take(i as int + 1),
                    j,
                ) by {
                    lemma_occurrences_of_prefix(self@, i as int + 1, j);
                }
                assert(occurrences(self@.take(i as int + 1), k as int) == occurrences(
                    self@.take(i as int),
                    k as int,
                ) + 1);
                assert(before[k as int] + 1 <= MAX_FACTOR);
            }
            counts.counts[k] = counts.counts[k] + 1;
            i += 1;
        }
        assert(self@.take(WORD_LENGTH as int) =~= self@);
        assert(counts@ =~= tallied(old(counts)@, self@));
    }

    /// The score of this word against the table.
    pub fn score_from_counts(&self, counts: &LetterCounts) -> (product: Score)
        ensures
            product@ == score(self@, counts@),
    {
        let mut product = Score::one();
        let mut i: usize = 0;
        proof {
            self.lemma_length();
        }
        while i < WORD_LENGTH
            invariant
                i <= WORD_LENGTH,
                self@.len() == WORD_LENGTH,
                product@ == score(self@.take(i as int), counts@),
                product@ <= max_product(i as nat),
            decreases WORD_LENGTH - i,
        {
            let n = counts.count(self.slot_at(i));
            let factor: u128 = if n == 0 {
                1
            } else {
                n
            };
            proof {
                assert(self@.take(i as int + 1).drop_last() =~= self@.take(i as int));
                lemma_max_product_grows(product@, factor as nat, i as nat);
                lemma_max_product_is_monotonic((i + 1) as nat, 5);
                lemma_max_product_fits();
            }
            product = product.times(factor);
            i += 1;
        }
        assert(self@.take(WORD_LENGTH as int) =~= self@);
        product
    }
}

/// A part of a word has no more occurrences of a letter than the whole word.
pub proof fn lemma_occurrences_of_prefix(letters: Seq<char>, n: int, k: int)
    requires
        0 <= n <= letters.len(),
    ensures
        occurrences(letters.take(n), k) <= occurrences(letters, k),
    decreases letters.len(),
{
    if n == letters.len() {
        assert(letters.take(n) =~= letters);
    } else {
        lemma_occurrences_of_prefix(letters.drop_last(), n, k);
        assert(letters.drop_last().take(n) =~= letters.take(n));
    }
}

} // verus!
