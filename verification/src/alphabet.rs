//! The closed alphabet of the game and the character classes used when
//! reading words: the 26 Latin letters and the three accented letters
//! `å`, `ä` and `ö`. Words hold them in lower case; text may spell them in
//! either case.

use vstd::prelude::*;

verus! {

/// Number of letters in the alphabet.
pub const ALPHABET_SIZE: usize = 29;

/// The letter `å`.
pub const A_RING: char = '\u{e5}';

/// The letter `ä`.
pub const A_DIAERESIS: char = '\u{e4}';

/// The letter `ö`.
pub const O_DIAERESIS: char = '\u{f6}';

/// The capital `Å`.
pub const CAPITAL_A_RING: char = '\u{c5}';

/// The capital `Ä`.
pub const CAPITAL_A_DIAERESIS: char = '\u{c4}';

/// The capital `Ö`.
pub const CAPITAL_O_DIAERESIS: char = '\u{d6}';

/// Whether `c` is one of the 29 letters of the alphabet, in lower case.
pub open spec fn is_letter(c: char) -> bool {
    ('a' <= c && c <= 'z') || c == A_RING || c == A_DIAERESIS || c == O_DIAERESIS
}

/// The position of a letter in the alphabet: `a` to `z` take 0 to 25,
/// then `å`, `ä` and `ö` take 26, 27 and 28.
pub open spec fn slot(c: char) -> int
    recommends
        is_letter(c),
{
    if c == A_RING {
        26
    } else if c == A_DIAERESIS {
        27
    } else if c == O_DIAERESIS {
        28
    } else {
        c as int - 'a' as int
    }
}

/// Whether `c` is the capital of one of the 29 letters: `A` to `Z`, `Å`, `Ä`
/// or `Ö`.
pub open spec fn is_capital(c: char) -> bool {
    ('A' <= c && c <= 'Z') || c == CAPITAL_A_RING || c == CAPITAL_A_DIAERESIS || c
        == CAPITAL_O_DIAERESIS
}

/// `c` folded to lower case: the capital of a letter of the alphabet becomes
/// that letter, `Å`, `Ä` and `Ö` as well as `A` to `Z`. Every other character
/// is left as it is.
pub open spec fn fold(c: char) -> char {
    if is_capital(c) {
        ((c as u8) + 32) as char
    } else {
        c
    }
}

/// Whether `c` is white space: one of the characters that carry the Unicode
/// property `White_Space`.
pub open spec fn is_blank(c: char) -> bool {
    let n = c as u32;
    ||| 0x09 <= n <= 0x0d
    ||| n == 0x20
    ||| n == 0x85
    ||| n == 0xa0
    ||| n == 0x1680
    ||| 0x2000 <= n <= 0x200a
    ||| n == 0x2028
    ||| n == 0x2029
    ||| n == 0x202f
    ||| n == 0x205f
    ||| n == 0x3000
}

/// `s` without the white space at its two ends.
pub open spec fn trimmed(s: Seq<char>) -> Seq<char>
    decreases s.len(),
{
    if s.len() > 0 && is_blank(s[0]) {
        trimmed(s.drop_first())
    } else if s.len() > 0 && is_blank(s.last()) {
        trimmed(s.drop_last())
    } else {
        s
    }
}

/// Folds the capital of a letter of the alphabet to lower case.
pub fn fold_char(c: char) -> (folded: char)
    ensures
        folded == fold(c),
{
    if ('A' <= c && c <= 'Z') || c == CAPITAL_A_RING || c == CAPITAL_A_DIAERESIS || c
        == CAPITAL_O_DIAERESIS {
        ((c as u8) + 32) as char
    } else {
        c
    }
}

/// The slot of `c`, if `c` is a letter of the alphabet.
pub fn letter_slot(c: char) -> (found: Option<usize>)
    ensures
        found is Some <==> is_letter(c),
        found matches Some(k) ==> k == slot(c) && k < ALPHABET_SIZE,
{
    if c == A_RING {
        Some(26)
    } else if c == A_DIAERESIS {
        Some(27)
    } else if c == O_DIAERESIS {
        Some(28)
    } else if 'a' <= c && c <= 'z' {
        Some((c as u8 - 97) as usize)
    } else {
        None
    }
}

/// Tells whether `c` is white space.
pub fn blank_char(c: char) -> (blank: bool)
    ensures
        blank == is_blank(c),
{
    let n: u32 = c as u32;
    (0x09 <= n && n <= 0x0d) || n == 0x20 || n == 0x85 || n == 0xa0 || n == 0x1680 || (0x2000 <= n
        && n <= 0x200a) || n == 0x2028 || n == 0x2029 || n == 0x202f || n == 0x205f || n == 0x3000
}

/// The bounds of the part of `s` that is left when the white space at both
/// ends is taken away.
pub fn trim_bounds(s: &[char]) -> (bounds: (usize, usize))
    ensures
        bounds.0 <= bounds.1 <= s.len(),
        s@.subrange(bounds.0 as int, bounds.1 as int) == trimmed(s@),
{
    let mut start: usize = 0;
    assert(s@.subrange(0, s.len() as int) =~= s@);
    while start < s.len() && blank_char(s[start])
        invariant
            start <= s.len(),
            trimmed(s@) == trimmed(s@.subrange(start as int, s.len() as int)),
        decreases s.len() - start,
    {
        proof {
            let rest = s@.subrange(start as int, s.len() as int);
            assert(rest.drop_first() =~= s@.subrange(start as int + 1, s.len() as int));
        }
        start += 1;
    }
    let mut end: usize = s.len();
    while end > start && blank_char(s[end - 1])
        invariant
            start <= end <= s.len(),
            start < s.len() ==> !is_blank(s@[start as int]),
            trimmed(s@) == trimmed(s@.subrange(start as int, end as int)),
        decreases end - start,
    {
        proof {
            let rest = s@.subrange(start as int, end as int);
            assert(rest.drop_last() =~= s@.subrange(start as int, end as int - 1));
        }
        end -= 1;
    }
    (start, end)
}

/// The characters of `s`, in order.
pub fn chars_of(s: &str) -> (chars: Vec<char>)
    ensures
        chars@ == s@,
{
    let mut chars: Vec<char> = Vec::new();
    for c in it: s.chars()
        invariant
            it.seq() == s@,
            chars@ == it.seq().take(it.index()),
    {
        chars.push(c);
        assert(chars@ =~= it.seq().take(it.index() + 1));
    }
    assert(chars@ =~= s@);
    chars
}

} // verus!
