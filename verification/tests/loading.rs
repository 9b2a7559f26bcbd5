use wordle_helper::store::{load_records, load_words};
use wordle_helper::word::Word;

fn words(texts: &[&str]) -> Vec<Word> {
    texts.iter().map(|t| Word::from_str(t).unwrap()).collect()
}

#[test]
fn loads_one_word_from_each_line() {
    assert_eq!(load_words("crane\nadieu\nloran\n"), words(&["crane", "adieu", "loran"]));
    assert_eq!(load_words("crane\nadieu\nloran"), words(&["crane", "adieu", "loran"]));
    assert_eq!(load_words("crane"), words(&["crane"]));
}

#[test]
fn an_empty_text_holds_no_word() {
    assert_eq!(load_words(""), Vec::<Word>::new());
    assert_eq!(load_words("\n\n\n"), Vec::<Word>::new());
}

#[test]
fn skips_lines_that_spell_no_word() {
    let text = "crane\nfour\n\nsixsix\nad1eu\nloran\n# note\nGHOST\n";
    assert_eq!(load_words(text), words(&["crane", "loran", "ghost"]));
}

#[test]
fn reads_lines_that_end_in_carriage_returns() {
    assert_eq!(load_words("crane\r\nadieu\r\n"), words(&["crane", "adieu"]));
    assert_eq!(load_words("  crane  \n\tadieu\n"), words(&["crane", "adieu"]));
}

#[test]
fn keeps_order_and_repeats() {
    assert_eq!(load_words("loran\ncrane\nloran\n"), words(&["loran", "crane", "loran"]));
}

#[test]
fn loads_words_with_accented_letters() {
    assert_eq!(
        load_words("gråtö\nblänk\nÅNGRA\nsmØrt\n"),
        words(&["gråtö", "blänk", "ångra"])
    );
}

#[test]
fn loads_as_the_lines_of_the_standard_library() {
    let text = "crane\r\n\nAdieu \nx\n loran\nabc\u{2028}de\nmisty";
    let expected: Vec<Word> = text.lines().filter_map(|line| Word::from_str(line).ok()).collect();
    assert_eq!(load_words(text), expected);
    assert_eq!(expected.len(), 4);
}

#[test]
fn loads_records_of_five_bytes() {
    assert_eq!(load_records(b"craneadieuloran"), words(&["crane", "adieu", "loran"]));
    assert_eq!(load_records(b"CRANEadieu"), words(&["crane", "adieu"]));
    assert_eq!(load_records(b""), Vec::<Word>::new());
}

#[test]
fn skips_records_that_spell_no_word() {
    assert_eq!(load_records(b"crane12345loran"), words(&["crane", "loran"]));
    assert_eq!(load_records(b"crane\nadie"), words(&["crane"]));
    assert_eq!(load_records(b"cran"), Vec::<Word>::new());
    assert_eq!(load_records(b"craneadi"), words(&["crane"]));
}

#[test]
fn loads_records_with_accented_letters() {
    let data = [0x67, 0x72, 0xe5, 0x74, 0xf6, 0x62, 0x6c, 0xe4, 0x6e, 0x6b];
    assert_eq!(load_records(&data), words(&["gråtö", "blänk"]));
    let capitals = [0xc5, 0x4e, 0x47, 0x52, 0x41, 0x62, 0x6c, 0xc4, 0x6e, 0x6b];
    assert_eq!(load_records(&capitals), words(&["ångra", "blänk"]));
}
