//! What holds of narrowing and of suggesting, whatever the candidates are.

use vstd::prelude::*;
use crate::alphabet::{fold, is_capital, is_letter};
use crate::engine::{
    agrees, agrees_at, eligible, filtered, leader, leads, outranks, ranked, suggestions, survives,
    without_repeat, SUGGESTIONS,
};
use crate::reply::{feedback_of, judgment, Reply};
use crate::store::spelled;
use crate::tally::{letter_counts, score};
use crate::word::{folded, has_repeat, is_word, spelling, Word, WORD_LENGTH};

verus! {

/// Reading is blind to case. Five characters spell a word exactly when each
/// is a letter of the alphabet or the capital of one, and text spells the
/// same, word or refusal, as its lower-case form.
pub proof fn lemma_spelling_ignores_case(text: Seq<char>)
    ensures
        spelling(text) is Ok <==> text.len() == WORD_LENGTH && forall|i: int|
            0 <= i < text.len() ==> is_letter(#[trigger] text[i]) || is_capital(text[i]),
        spelling(folded(text)) == spelling(text),
{
    if text.len() == WORD_LENGTH {
        if is_word(folded(text)) {
            assert forall|i: int| 0 <= i < text.len() implies is_letter(#[trigger] text[i])
                || is_capital(text[i]) by {
                assert(is_letter(folded(text)[i]));
            }
        }
        if forall|i: int| 0 <= i < text.len() ==> is_letter(#[trigger] text[i]) || is_capital(text[i]) {
            assert forall|i: int| 0 <= i < folded(text).len() implies is_letter(
                #[trigger] folded(text)[i],
            ) by {
                assert(is_letter(text[i]) || is_capital(text[i]));
            }
        }
        assert forall|i: int| 0 <= i < text.len() implies #[trigger] folded(folded(text))[i]
            == folded(text)[i] by {
            assert(fold(fold(text[i])) == fold(text[i]));
        }
        assert(folded(folded(text)) =~= folded(text));
    }
}

/// The answer agrees with the judgments that it gives to any guess.
pub proof fn lemma_answer_agrees(answer: Word, guess: Word)
    ensures
        agrees(guess@, feedback_of(answer@, guess@), answer@),
{
    answer.lemma_length();
    guess.lemma_length();
    assert forall|i: int| 0 <= i < 5 implies #[trigger] agrees_at(
        guess@,
        feedback_of(answer@, guess@)[i],
        answer@,
        i,
    ) by {
        assert(feedback_of(answer@, guess@)[i] == judgment(answer@, guess@, i));
    }
}

/// Narrowing never loses the answer: when the judgments on a guess are those
/// that the answer gives, and the answer is among the candidates, it is still
/// among them afterwards.
pub proof fn lemma_answer_survives(answer: Word, guess: Word, words: Seq<Word>)
    requires
        words.contains(answer),
    ensures
        filtered(guess@, feedback_of(answer@, guess@), words).contains(answer),
{
    lemma_answer_agrees(answer, guess);
    let i = choose|i: int| 0 <= i < words.len() && words[i] == answer;
    words.lemma_filter_contains(survives(guess@, feedback_of(answer@, guess@)), i);
}

/// A word that is guessed and judged against itself stays among the
/// candidates.
pub proof fn lemma_word_survives_itself(word: Word, words: Seq<Word>)
    requires
        words.contains(word),
    ensures
        filtered(word@, feedback_of(word@, word@), words).contains(word),
{
    lemma_answer_survives(word, word, words);
}

/// Narrowing only takes candidates away: the list does not grow, and every
/// word of it was a candidate before.
pub proof fn lemma_filtered_is_part(guess: Seq<char>, replies: Seq<Reply>, words: Seq<Word>)
    ensures
        filtered(guess, replies, words).len() <= words.len(),
        forall|word: Word|
            filtered(guess, replies, words).contains(word) ==> words.contains(word) && agrees(
                guess,
                replies,
                word@,
            ),
{
    let test = survives(guess, replies);
    words.lemma_filter_len(test);
    assert forall|word: Word| filtered(guess, replies, words).contains(word) implies words.contains(
        word,
    ) && agrees(guess, replies, word@) by {
        words.lemma_filter_contains_rev(test, word);
        let i = choose|i: int|
            0 <= i < words.filter(test).len() && words.filter(test)[i] == word;
        words.lemma_filter_pred(test, i);
    }
}

/// A pool that is not empty has a word that comes before all the others.
pub proof fn lemma_leader_exists(pool: Seq<Word>, counts: Seq<nat>)
    requires
        pool.len() > 0,
    ensures
        leads(pool, counts, leader(pool, counts)),
    decreases pool.len(),
{
    let last = pool.len() - 1;
    if pool.len() == 1 {
        assert(leads(pool, counts, 0));
    } else {
        let rest = pool.drop_last();
        lemma_leader_exists(rest, counts);
        let best = leader(rest, counts);
        if outranks(pool, counts, last, best) {
            assert forall|j: int| 0 <= j < pool.len() && j != last implies #[trigger] outranks(
                pool,
                counts,
                last,
                j,
            ) by {
                if j != best {
                    assert(outranks(rest, counts, best, j));
                }
            }
            assert(leads(pool, counts, last));
        } else {
            assert forall|j: int| 0 <= j < pool.len() && j != best implies #[trigger] outranks(
                pool,
                counts,
                best,
                j,
            ) by {
                if j != last {
                    assert(outranks(rest, counts, best, j));
                }
            }
            assert(leads(pool, counts, best));
        }
    }
}

/// The ranking holds as many words as were asked for, or the whole pool
/// where that is smaller, and each of them is a word of the pool.
pub proof fn lemma_ranked_is_part(pool: Seq<Word>, counts: Seq<nat>, n: nat)
    ensures
        ranked(pool, counts, n).len() == if n <= pool.len() {
            n
        } else {
            pool.len()
        },
        forall|i: int|
            0 <= i < ranked(pool, counts, n).len() ==> pool.contains(
                #[trigger] ranked(pool, counts, n)[i],
            ),
    decreases n,
{
    if n > 0 && pool.len() > 0 {
        lemma_leader_exists(pool, counts);
        let first = leader(pool, counts);
        let rest = pool.remove(first);
        lemma_ranked_is_part(rest, counts, (n - 1) as nat);
        let tail = ranked(rest, counts, (n - 1) as nat);
        assert forall|i: int| 0 <= i < ranked(pool, counts, n).len() implies pool.contains(
            #[trigger] ranked(pool, counts, n)[i],
        ) by {
            if i == 0 {
                assert(pool[first] == ranked(pool, counts, n)[0]);
            } else {
                assert(ranked(pool, counts, n)[i] == tail[i - 1]);
                assert(rest.contains(tail[i - 1]));
                let k = choose|k: int| 0 <= k < rest.len() && rest[k] == tail[i - 1];
                if k < first {
                    assert(pool[k] == rest[k]);
                } else {
                    assert(pool[k + 1] == rest[k]);
                }
            }
        }
    }
}

/// The ranking goes from the highest score down: no word in it has a lower
/// score than a word that comes after it.
pub proof fn lemma_ranked_descends(pool: Seq<Word>, counts: Seq<nat>, n: nat)
    ensures
        forall|i: int, j: int|
            0 <= i < j < ranked(pool, counts, n).len() ==> score(
                (#[trigger] ranked(pool, counts, n)[i])@,
                counts,
            ) >= score((#[trigger] ranked(pool, counts, n)[j])@, counts),
    decreases n,
{
    if n > 0 && pool.len() > 0 {
        lemma_leader_exists(pool, counts);
        let first = leader(pool, counts);
        let rest = pool.remove(first);
        let tail = ranked(rest, counts, (n - 1) as nat);
        lemma_ranked_descends(rest, counts, (n - 1) as nat);
        lemma_ranked_is_part(rest, counts, (n - 1) as nat);
        assert forall|i: int, j: int| 0 <= i < j < ranked(pool, counts, n).len() implies score(
            (#[trigger] ranked(pool, counts, n)[i])@,
            counts,
        ) >= score((#[trigger] ranked(pool, counts, n)[j])@, counts) by {
            assert(ranked(pool, counts, n)[j] == tail[j - 1]);
            if i == 0 {
                assert(rest.contains(tail[j - 1]));
                let k = choose|k: int| 0 <= k < rest.len() && rest[k] == tail[j - 1];
                if k < first {
                    assert(outranks(pool, counts, first, k));
                } else {
                    assert(outranks(pool, counts, first, k + 1));
                }
            } else {
                assert(ranked(pool, counts, n)[i] == tail[i - 1]);
            }
        }
    }
}

/// No suggested word has a letter twice, and every suggested word is one of
/// the candidates.
pub proof fn lemma_suggestions_have_no_repeat(words: Seq<Word>)
    ensures
        forall|i: int|
            0 <= i < suggestions(words).len() ==> !has_repeat((#[trigger] suggestions(words)[i])@)
                && words.contains(suggestions(words)[i]),
{
    let pool = eligible(words);
    lemma_ranked_is_part(pool, letter_counts(words), SUGGESTIONS as nat);
    assert forall|i: int| 0 <= i < suggestions(words).len() implies !has_repeat(
        (#[trigger] suggestions(words)[i])@,
    ) && words.contains(suggestions(words)[i]) by {
        let word = suggestions(words)[i];
        assert(pool.contains(word));
        words.lemma_filter_contains_rev(without_repeat(), word);
        let k = choose|k: int| 0 <= k < pool.len() && pool[k] == word;
        words.lemma_filter_pred(without_repeat(), k);
    }
}

/// Three words are suggested, or as many as there are candidates without a
/// repeated letter where those are fewer; none for an empty list.
pub proof fn lemma_suggestions_count(words: Seq<Word>)
    ensures
        suggestions(words).len() == if eligible(words).len() >= SUGGESTIONS {
            SUGGESTIONS as nat
        } else {
            eligible(words).len()
        },
        eligible(words).len() <= words.len(),
        words.len() == 0 ==> suggestions(words).len() == 0,
{
    lemma_ranked_is_part(eligible(words), letter_counts(words), SUGGESTIONS as nat);
    words.lemma_filter_len(without_repeat());
}

/// The suggestions depend on nothing but the letters of the candidates and
/// their order: two lists that spell the same words get the same suggestions.
pub proof fn lemma_suggestions_are_determined(first: Seq<Word>, second: Seq<Word>)
    requires
        spelled(first) == spelled(second),
    ensures
        suggestions(first) == suggestions(second),
{
    assert(first.len() == spelled(first).len());
    assert(second.len() == spelled(second).len());
    assert forall|i: int| 0 <= i < first.len() implies first[i] == second[i] by {
        assert(first[i]@ == spelled(first)[i]);
        assert(second[i]@ == spelled(second)[i]);
        Word::lemma_same_letters(first[i], second[i]);
    }
    assert(first =~= second);
}

} // verus!
