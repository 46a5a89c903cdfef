use wubi_table::phrase::splice;
use wubi_table::{get_code_for_phrase, ParseError, WubiCode};

fn code(letters: &str) -> WubiCode {
    WubiCode::try_from(letters.as_bytes()).unwrap()
}

#[test]
fn two_characters_give_two_letters_each() {
    let lookup = |ch: char| match ch {
        '甲' => Some(code("abcd")),
        '乙' => Some(code("efgh")),
        _ => None,
    };
    assert_eq!(get_code_for_phrase("甲乙", lookup), Ok(code("abef")));
}

#[test]
fn three_characters_give_one_one_and_two_letters() {
    let lookup = |ch: char| match ch {
        '甲' => Some(code("abcd")),
        '乙' => Some(code("efgh")),
        '丙' => Some(code("ijkl")),
        _ => None,
    };
    assert_eq!(get_code_for_phrase("甲乙丙", lookup), Ok(code("aeij")));
}

#[test]
fn five_characters_use_the_first_three_and_the_last() {
    let lookup = |ch: char| match ch {
        '甲' => Some(code("abcd")),
        '乙' => Some(code("efgh")),
        '丙' => Some(code("ijkl")),
        '丁' => Some(code("mnop")),
        '戊' => Some(code("qrst")),
        _ => None,
    };
    assert_eq!(get_code_for_phrase("甲乙丙丁戊", lookup), Ok(code("aeiq")));
}

#[test]
fn four_characters_give_one_letter_each() {
    let lookup = |ch: char| match ch {
        '甲' => Some(code("abcd")),
        '乙' => Some(code("efgh")),
        '丙' => Some(code("ijkl")),
        '丁' => Some(code("mnop")),
        _ => None,
    };
    assert_eq!(get_code_for_phrase("甲乙丙丁", lookup), Ok(code("aeim")));
}

#[test]
fn unused_characters_need_no_code() {
    let lookup = |ch: char| match ch {
        '甲' => Some(code("abcd")),
        '乙' => Some(code("efgh")),
        '丙' => Some(code("ijkl")),
        '戊' => Some(code("qrst")),
        _ => None,
    };
    assert_eq!(get_code_for_phrase("甲乙丙丁戊", lookup), Ok(code("aeiq")));
}

#[test]
fn missing_character_code_is_reported() {
    let lookup = |ch: char| match ch {
        '甲' => Some(code("abcd")),
        _ => None,
    };
    assert_eq!(
        get_code_for_phrase("甲乙", lookup),
        Err(ParseError::MissingCharacterCode)
    );
}

#[test]
fn splice_exact_indices() {
    let abcd = code("abcd");
    let efgh = code("efgh");
    let ijkl = code("ijkl");
    assert_eq!(
        splice(&[abcd, efgh]).index(),
        17576 + 2 * 676 + 5 * 26 + 6
    );
    assert_eq!(
        splice(&[abcd, efgh, ijkl]).index(),
        17576 + 5 * 676 + 9 * 26 + 10
    );
    assert_eq!(splice(&[abcd, efgh, ijkl, abcd]).to_bytes(), b"aeia".to_vec());
}

#[test]
fn short_character_codes_splice_to_short_codes() {
    let lookup = |ch: char| match ch {
        '甲' => Some(code("ab")),
        '乙' => Some(code("e")),
        _ => None,
    };
    assert_eq!(get_code_for_phrase("甲乙", lookup), Ok(code("abe")));
}
