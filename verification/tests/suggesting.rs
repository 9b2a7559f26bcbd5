use wordle_helper::engine::count_letters;
use wordle_helper::score::{Score, MAX_FACTOR};
use wordle_helper::tally::LetterCounts;
use wordle_helper::word::Word;

fn word(text: &str) -> Word {
    Word::from_str(text).unwrap()
}

fn words(texts: &[&str]) -> Vec<Word> {
    texts.iter().map(|t| word(t)).collect()
}

fn slot(c: char) -> usize {
    wordle_helper::alphabet::letter_slot(c).unwrap()
}

#[test]
fn no_candidates_no_suggestions() {
    assert_eq!(Word::suggest(&Vec::new()), Vec::<Word>::new());
}

#[test]
fn counts_every_occurrence() {
    let mut counts = LetterCounts::new();
    for k in 0..29 {
        assert_eq!(counts.count(k), 0);
    }
    word("eerie").update_counts(&mut counts);
    assert_eq!(counts.count(slot('e')), 3);
    assert_eq!(counts.count(slot('r')), 1);
    assert_eq!(counts.count(slot('i')), 1);
    assert_eq!(counts.count(slot('a')), 0);
    word("gråtö").update_counts(&mut counts);
    assert_eq!(counts.count(slot('r')), 2);
    assert_eq!(counts.count(26), 1);
    assert_eq!(counts.count(27), 0);
    assert_eq!(counts.count(28), 1);
    let total: u128 = (0..29).map(|k| counts.count(k)).sum();
    assert_eq!(total, 10);
}

#[test]
fn the_table_of_a_list_counts_all_its_words() {
    let counts = count_letters(&words(&["crane", "adieu", "loran", "apple"]));
    assert_eq!(counts.count(slot('a')), 4);
    assert_eq!(counts.count(slot('e')), 3);
    assert_eq!(counts.count(slot('p')), 2);
    assert_eq!(counts.count(slot('r')), 2);
    assert_eq!(counts.count(slot('c')), 1);
    assert_eq!(counts.count(slot('z')), 0);
    let total: u128 = (0..29).map(|k| counts.count(k)).sum();
    assert_eq!(total, 20);
}

#[test]
fn the_score_is_the_product_of_the_counts() {
    let counts = count_letters(&words(&["crane", "adieu", "loran", "apple"]));
    assert_eq!(word("crane").score_from_counts(&counts).to_u128(), Some(48));
    assert_eq!(word("adieu").score_from_counts(&counts).to_u128(), Some(12));
    assert_eq!(word("loran").score_from_counts(&counts).to_u128(), Some(32));
    assert_eq!(word("apple").score_from_counts(&counts).to_u128(), Some(4 * 2 * 2 * 2 * 3));
}

#[test]
fn an_unseen_letter_weighs_one() {
    let counts = count_letters(&words(&["crane", "crane"]));
    assert_eq!(word("crane").score_from_counts(&counts).to_u128(), Some(32));
    assert_eq!(word("crazy").score_from_counts(&counts).to_u128(), Some(8));
    assert_eq!(word("ghost").score_from_counts(&counts).to_u128(), Some(1));
    assert_eq!(word("ghost").score_from_counts(&LetterCounts::new()).to_u128(), Some(1));
}

#[test]
fn suggests_the_best_three_in_order() {
    let list = words(&["adieu", "crane", "apple", "loran"]);
    assert_eq!(Word::suggest(&list), words(&["crane", "loran", "adieu"]));
}

#[test]
fn suggests_no_word_with_a_repeated_letter() {
    let list = words(&["apple", "eerie", "llama", "crane", "geese"]);
    let top = Word::suggest(&list);
    assert_eq!(top, words(&["crane"]));
    let list = words(&["apple", "eerie", "llama"]);
    assert_eq!(Word::suggest(&list), Vec::<Word>::new());
}

#[test]
fn suggests_at_most_three() {
    let list = words(&["crane", "loran", "adieu", "ghost", "humid", "misty"]);
    assert_eq!(Word::suggest(&list).len(), 3);
    assert_eq!(Word::suggest(&list[..2].to_vec()).len(), 2);
    assert_eq!(Word::suggest(&list[..1].to_vec()), words(&["crane"]));
}

#[test]
fn equal_scores_keep_the_order_of_the_list() {
    // Each letter occurs once, so every word scores 1.
    let list = words(&["abcde", "fghij", "klmno", "pqrst"]);
    assert_eq!(Word::suggest(&list), words(&["abcde", "fghij", "klmno"]));
    let list = words(&["pqrst", "klmno", "fghij", "abcde"]);
    assert_eq!(Word::suggest(&list), words(&["pqrst", "klmno", "fghij"]));
    // One word stands out, the others tie.
    let list = words(&["abcde", "fghij", "klmno", "lmnok"]);
    assert_eq!(Word::suggest(&list), words(&["klmno", "lmnok", "abcde"]));
}

#[test]
fn a_word_listed_twice_can_be_suggested_twice() {
    let list = words(&["crane", "ghost", "crane"]);
    assert_eq!(Word::suggest(&list), words(&["crane", "crane", "ghost"]));
}

#[test]
fn suggesting_twice_gives_the_same() {
    let list = words(&["adieu", "crane", "apple", "loran", "ghost", "humid"]);
    let before = list.clone();
    let first = Word::suggest(&list);
    let second = Word::suggest(&list);
    assert_eq!(first, second);
    assert_eq!(list, before);
}

#[test]
fn repeated_words_still_count_toward_the_table() {
    // `eerie` is never suggested, but its letters weigh in.
    let list = words(&["eerie", "crane", "ghost"]);
    let counts = count_letters(&list);
    assert_eq!(counts.count(slot('e')), 4);
    assert_eq!(word("crane").score_from_counts(&counts).to_u128(), Some(1 * 2 * 1 * 1 * 4));
    assert_eq!(Word::suggest(&list), words(&["crane", "ghost"]));
}

#[test]
fn scores_multiply_and_compare_beyond_128_bits() {
    let one = Score::one();
    assert_eq!(one.to_u128(), Some(1));
    assert_eq!(one.times(7).times(6).to_u128(), Some(42));
    assert_eq!(one.times(0).to_u128(), Some(0));
    let big = one.times(u64::MAX as u128).times(u64::MAX as u128);
    assert_eq!(big.to_u128(), Some(u64::MAX as u128 * u64::MAX as u128));
    let huge = big.times(u64::MAX as u128);
    assert_eq!(huge.to_u128(), None);
    assert!(huge.exceeds(&big));
    assert!(!big.exceeds(&huge));
    assert!(!huge.exceeds(&huge));
    let mut largest = one;
    for _ in 0..5 {
        largest = largest.times(MAX_FACTOR);
    }
    assert_eq!(largest.to_u128(), None);
    assert!(largest.exceeds(&huge));
    let mut next = one;
    for _ in 0..4 {
        next = next.times(MAX_FACTOR);
    }
    let next = next.times(MAX_FACTOR - 1);
    assert!(largest.exceeds(&next));
    assert!(!next.exceeds(&largest));
}

#[test]
fn the_largest_u128_is_still_small() {
    let a: u128 = 0xffff_ffff_ffff_ffff;
    let b: u128 = 0x1_0000_0000_0000_0001;
    // a * b = 2^128 - 1
    let score = Score::one().times(a).times(b);
    assert_eq!(score.to_u128(), Some(u128::MAX));
    let more = Score::one().times(a).times(b).times(2);
    assert_eq!(more.to_u128(), None);
    assert!(more.exceeds(&score));
}
