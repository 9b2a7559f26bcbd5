use wordle_helper::engine::filter;
use wordle_helper::reply::Reply;
use wordle_helper::word::{Word, WordError};

fn word(text: &str) -> Word {
    Word::from_str(text).unwrap()
}

fn words(texts: &[&str]) -> Vec<Word> {
    texts.iter().map(|t| word(t)).collect()
}

const C: Reply = Reply::Correct;
const W: Reply = Reply::WrongLocation;
const N: Reply = Reply::NotInWord;

#[test]
fn all_absent_removes_every_word_with_a_guessed_letter() {
    let kept = word("crane").execute_guess([N, N, N, N, N], words(&["loran", "crane", "adieu"]));
    assert_eq!(kept, Vec::<Word>::new());
    let kept = word("crane").execute_guess(
        [N, N, N, N, N],
        words(&["loran", "crane", "humid", "adieu", "misty", "ghost"]),
    );
    assert_eq!(kept, words(&["humid", "misty", "ghost"]));
}

#[test]
fn all_correct_keeps_exactly_the_guess() {
    let kept = word("abcde").execute_guess([C, C, C, C, C], words(&["abcde", "abcdf"]));
    assert_eq!(kept, words(&["abcde"]));
}

#[test]
fn correct_fixes_a_position() {
    let kept = word("crane").execute_guess(
        [C, N, N, N, N],
        words(&["cloth", "could", "crane", "child", "light"]),
    );
    assert_eq!(kept, words(&["cloth", "could", "child"]));
}

#[test]
fn wrong_location_wants_the_letter_elsewhere() {
    let list = words(&["tsxyz", "stxyz", "xyztu", "xyzuv"]);
    let kept = word("tbbbb").execute_guess([W, N, N, N, N], list);
    assert_eq!(kept, words(&["stxyz", "xyztu"]));
}

#[test]
fn absent_rules_out_the_letter_everywhere() {
    let list = words(&["abbey", "taboo", "crypt"]);
    let kept = word("bxxxx").execute_guess([N, N, N, N, N], list);
    assert_eq!(kept, words(&["crypt"]));
}

#[test]
fn a_repeated_letter_judged_both_ways_leaves_nothing() {
    // The guess repeats `e`: once correct, once absent. Absent means that the
    // letter is nowhere in the word, so no word can meet both.
    let list = words(&["those", "abide", "eerie"]);
    let kept = word("eqzqe").execute_guess([N, N, N, N, C], list);
    assert_eq!(kept, Vec::<Word>::new());
}

#[test]
fn the_order_and_the_repeats_of_the_list_are_kept() {
    let list = words(&["misty", "ghost", "misty", "crane", "humid"]);
    let kept = word("crane").execute_guess([N, N, N, N, N], list);
    assert_eq!(kept, words(&["misty", "ghost", "misty", "humid"]));
}

#[test]
fn an_empty_list_stays_empty() {
    let kept = word("crane").execute_guess([C, W, N, C, W], Vec::new());
    assert!(kept.is_empty());
}

#[test]
fn narrowing_keeps_the_answer() {
    let list = words(&["crane", "loran", "adieu", "eerie", "apple", "ghost", "llama"]);
    for answer in &list {
        for guess in &list {
            let feedback = answer.feedback_for(guess);
            let kept = guess.execute_guess(feedback, list.clone());
            assert!(kept.contains(answer), "{:?} lost for {:?}", answer, guess);
        }
    }
}

#[test]
fn a_word_judged_against_itself_stays() {
    let list = words(&["crane", "loran", "eerie", "apple"]);
    for w in &list {
        let feedback = w.feedback_for(w);
        assert_eq!(feedback, [C, C, C, C, C]);
        let kept = w.execute_guess(feedback, list.clone());
        assert_eq!(kept, vec![*w]);
    }
}

#[test]
fn narrowing_gives_a_part_of_the_list() {
    let list = words(&["crane", "loran", "adieu", "eerie", "apple", "ghost", "llama"]);
    let replies = [[C, W, N, N, W], [N, N, W, N, N], [W, W, W, W, W], [N, N, N, N, N]];
    for guess in &list {
        for r in &replies {
            let kept = guess.execute_guess(*r, list.clone());
            assert!(kept.len() <= list.len());
            let mut from = 0;
            for k in &kept {
                let at = list[from..].iter().position(|w| w == k).unwrap();
                from += at + 1;
            }
            let again = guess.execute_guess(*r, kept.clone());
            assert_eq!(again, kept);
        }
    }
}

#[test]
fn feedback_marks_each_letter() {
    let answer = word("crane");
    assert_eq!(answer.feedback_for(&word("crane")), [C, C, C, C, C]);
    assert_eq!(answer.feedback_for(&word("nacre")), [W, W, W, W, C]);
    assert_eq!(answer.feedback_for(&word("ghost")), [N, N, N, N, N]);
    assert_eq!(answer.feedback_for(&word("eerie")), [W, W, W, N, C]);
}

#[test]
fn agreement_is_tested_letter_by_letter() {
    let guess = word("crane");
    assert!(word("crypt").agrees_with(&guess, &[C, C, N, N, N]));
    assert!(!word("crane").agrees_with(&guess, &[C, C, N, N, N]));
    assert!(word("nacre").agrees_with(&guess, &[W, W, W, W, C]));
    assert!(!word("nacre").agrees_with(&guess, &[W, W, W, W, W]));
}

#[test]
fn filter_reads_the_guess_from_text() {
    let list = words(&["abcde", "abcdf"]);
    assert_eq!(filter(" ABCDE\n", &[C, C, C, C, C], &list), Ok(words(&["abcde"])));
    assert_eq!(filter("abcde", &[C, C, C, C, N], &list), Ok(words(&["abcdf"])));
}

#[test]
fn filter_reads_a_guess_in_either_case() {
    let list = words(&["gråta", "gröta", "grata"]);
    assert_eq!(filter("GRÅTA", &[C, C, C, C, C], &list), Ok(words(&["gråta"])));
    assert_eq!(filter("GRÅTA", &[C, C, N, C, C], &list), Ok(words(&["gröta", "grata"])));
}

#[test]
fn filter_refuses_a_malformed_guess() {
    let list = words(&["abcde", "abcdf"]);
    assert_eq!(filter("abcd", &[C, C, C, C, C], &list), Err(WordError::WrongLength));
    assert_eq!(filter("abcdef", &[C, C, C, C, C], &list), Err(WordError::WrongLength));
    assert_eq!(filter("abcd!", &[C, C, C, C, C], &list), Err(WordError::InvalidLetter));
    assert_eq!(list, words(&["abcde", "abcdf"]));
}
