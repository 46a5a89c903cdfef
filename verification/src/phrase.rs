use vstd::prelude::*;
use vstd::string::*;
use crate::code::{digit, indices, is_code_index, lemma_digits, letter_count, WubiCode};
use crate::error::ParseError;

verus! {

/// The code of a phrase of two characters: the first two letters of each
/// character's code.
pub open spec fn spliced_two(c1: int, c2: int) -> int {
    c1 / 676 * 676 + c2 / 676
}

/// The code of a phrase of three characters: the first letter of the first
/// two codes, then the first two letters of the third.
pub open spec fn spliced_three(c1: int, c2: int, c3: int) -> int {
    c1 / 17576 * 17576 + c2 / 17576 * 676 + c3 / 676
}

/// The code of a phrase of four or more characters: the first letter of the
/// codes of its first three characters and of its last.
pub open spec fn spliced_long(c1: int, c2: int, c3: int, last: int) -> int {
    c1 / 17576 * 17576 + c2 / 17576 * 676 + c3 / 17576 * 26 + last / 17576
}

/// The index of a phrase's code, from the indices of its characters' codes.
pub open spec fn phrase_index(codes: Seq<int>) -> int
    recommends
        codes.len() >= 2,
{
    if codes.len() == 2 {
        spliced_two(codes[0], codes[1])
    } else if codes.len() == 3 {
        spliced_three(codes[0], codes[1], codes[2])
    } else {
        spliced_long(codes[0], codes[1], codes[2], codes.last())
    }
}

/// The positions of the characters whose codes make up the code of a phrase of
/// `len` characters: all of two or three, else the first three and the last.
pub open spec fn used_positions(len: int) -> Seq<int>
    recommends
        len >= 2,
{
    if len == 2 {
        seq![0, 1]
    } else if len == 3 {
        seq![0, 1, 2]
    } else {
        seq![0, 1, 2, len - 1]
    }
}

/// The code of a phrase of two characters holds the first two letters of the
/// first character's code, then the first two of the second's.
pub proof fn lemma_spliced_two_letters(c1: int, c2: int)
    requires
        is_code_index(c1),
        is_code_index(c2),
    ensures
        is_code_index(spliced_two(c1, c2)),
        digit(spliced_two(c1, c2), 0) == digit(c1, 0),
        digit(spliced_two(c1, c2), 1) == digit(c1, 1),
        digit(spliced_two(c1, c2), 2) == digit(c2, 0),
        digit(spliced_two(c1, c2), 3) == digit(c2, 1),
{
    assert(c1 / 676 == digit(c1, 0) * 26 + digit(c1, 1));
    assert(c2 / 676 == digit(c2, 0) * 26 + digit(c2, 1));
    lemma_digits(digit(c1, 0), digit(c1, 1), digit(c2, 0), digit(c2, 1));
}

/// The code of a phrase of three characters holds the first letter of the
/// first two characters' codes, then the first two letters of the third's.
pub proof fn lemma_spliced_three_letters(c1: int, c2: int, c3: int)
    requires
        is_code_index(c1),
        is_code_index(c2),
        is_code_index(c3),
    ensures
        is_code_index(spliced_three(c1, c2, c3)),
        digit(spliced_three(c1, c2, c3), 0) == digit(c1, 0),
        digit(spliced_three(c1, c2, c3), 1) == digit(c2, 0),
        digit(spliced_three(c1, c2, c3), 2) == digit(c3, 0),
        digit(spliced_three(c1, c2, c3), 3) == digit(c3, 1),
{
    assert(c3 / 676 == digit(c3, 0) * 26 + digit(c3, 1));
    lemma_digits(digit(c1, 0), digit(c2, 0), digit(c3, 0), digit(c3, 1));
}

/// The code of a phrase of four or more characters holds the first letter of
/// the codes of its first three characters and of its last: it has four
/// letters.
pub proof fn lemma_spliced_long_letters(c1: int, c2: int, c3: int, last: int)
    requires
        is_code_index(c1),
        is_code_index(c2),
        is_code_index(c3),
        is_code_index(last),
    ensures
        is_code_index(spliced_long(c1, c2, c3, last)),
        digit(spliced_long(c1, c2, c3, last), 0) == digit(c1, 0),
        digit(spliced_long(c1, c2, c3, last), 1) == digit(c2, 0),
        digit(spliced_long(c1, c2, c3, last), 2) == digit(c3, 0),
        digit(spliced_long(c1, c2, c3, last), 3) == digit(last, 0),
        letter_count(spliced_long(c1, c2, c3, last)) == 4,
{
    lemma_digits(digit(c1, 0), digit(c2, 0), digit(c3, 0), digit(last, 0));
}

/// Splices the codes of a phrase's characters into the code of the phrase.
pub fn splice(codes: &[WubiCode]) -> (r: WubiCode)
    requires
        codes@.len() >= 2,
    ensures
        r.spec_index() == phrase_index(indices(codes@)),
{
    let n: usize = codes.len();
    let c1: u32 = codes[0].index();
    let c2: u32 = codes[1].index();
    let index: u32 = if n == 2 {
        c1 / 676 * 676 + c2 / 676
    } else if n == 3 {
        let c3: u32 = codes[2].index();
        c1 / 17576 * 17576 + c2 / 17576 * 676 + c3 / 676
    } else {
        let c3: u32 = codes[2].index();
        let last: u32 = codes[n - 1].index();
        c1 / 17576 * 17576 + c2 / 17576 * 676 + c3 / 17576 * 26 + last / 17576
    };
    assert(is_code_index(index as int));
    WubiCode::from_index(index).unwrap()
}

/// What `get_code_for_phrase` answers for a phrase, given what the lookup
/// answered for the characters it asks about.
pub open spec fn phrase_code_outcome<F: Fn(char) -> Option<WubiCode>>(
    phrase: Seq<char>,
    char_code: F,
    r: Result<WubiCode, ParseError>,
) -> bool {
    let used = used_positions(phrase.len() as int);
    match r {
        Ok(code) => exists|codes: Seq<WubiCode>|
            {
                &&& codes.len() == used.len()
                &&& forall|i: int|
                    0 <= i < codes.len() ==> char_code.ensures(
                        (phrase[used[i]],),
                        Some(#[trigger] codes[i]),
                    )
                &&& code.spec_index() == phrase_index(indices(codes))
            },
        Err(e) => e == ParseError::MissingCharacterCode && exists|i: int|
            0 <= i < used.len() && char_code.ensures((phrase[#[trigger] used[i]],), None),
    }
}

/// The code of a phrase of two or more characters, from the codes that
/// `char_code` gives for its characters.
///
/// Only the first three characters and the last are looked up. Where the lookup
/// has no code for one of them the answer is `MissingCharacterCode`.
pub fn get_code_for_phrase<F: Fn(char) -> Option<WubiCode>>(phrase: &str, char_code: F) -> (r:
    Result<WubiCode, ParseError>)
    requires
        phrase@.len() >= 2,
        forall|c: char| char_code.requires((c,)),
    ensures
        phrase_code_outcome(phrase@, char_code, r),
{
    let n: usize = phrase.unicode_len();
    let ghost used = used_positions(n as int);
    let count: usize = if n < 4 {
        n
    } else {
        4
    };
    let mut codes: Vec<WubiCode> = Vec::new();
    let mut i: usize = 0;
    while i < count
        invariant
            n == phrase@.len(),
            n >= 2,
            used == used_positions(n as int),
            count == used.len(),
            i <= count,
            codes@.len() == i,
            forall|c: char| char_code.requires((c,)),
            forall|j: int|
                0 <= j < i ==> char_code.ensures((phrase@[used[j]],), Some(#[trigger] codes@[j])),
        decreases count - i,
    {
        let position: usize = if i == 3 {
            n - 1
        } else {
            i
        };
        assert(position == used[i as int]);
        match char_code(phrase.get_char(position)) {
            Some(code) => {
                codes.push(code);
            },
            None => {
                return Err(ParseError::MissingCharacterCode);
            },
        }
        i = i + 1;
    }
    let code = splice(codes.as_slice());
    Ok(code)
}

} // verus!
