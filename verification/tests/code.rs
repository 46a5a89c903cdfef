use wubi_table::code::{WubiCode, INDEX_UPPER_BOUND};
use wubi_table::error::ParseError;

#[test]
fn convert_wubi_code() {
    assert!(WubiCode::try_from(b"".as_slice()).is_err());
    assert!(WubiCode::try_from(b"a\0cd".as_slice()).is_err());
    assert!(WubiCode::try_from(b"abcde".as_slice()).is_err());
    assert_eq!(
        WubiCode::try_from(b"yyyy".as_slice()),
        Ok(WubiCode::from_index(INDEX_UPPER_BOUND as u32 - 1).unwrap())
    );
}

#[test]
fn parse_errors_name_the_fault() {
    assert_eq!(WubiCode::try_from(b"".as_slice()), Err(ParseError::Empty));
    assert_eq!(
        WubiCode::try_from(b"abcde".as_slice()),
        Err(ParseError::TooLongCode(b"abcde".to_vec()))
    );
    assert_eq!(WubiCode::try_from(b"abz".as_slice()), Err(ParseError::NotValidChar));
    assert_eq!(WubiCode::try_from(b"aB".as_slice()), Err(ParseError::NotValidChar));
}

#[test]
fn index_is_the_weighted_sum_of_the_letters() {
    assert_eq!(WubiCode::try_from(b"a".as_slice()).unwrap().index(), 17576);
    assert_eq!(WubiCode::try_from(b"ab".as_slice()).unwrap().index(), 17576 + 2 * 676);
    assert_eq!(
        WubiCode::try_from(b"abcd".as_slice()).unwrap().index(),
        17576 + 2 * 676 + 3 * 26 + 4
    );
}

#[test]
fn render_gives_the_letters_back() {
    for letters in [&b"a"[..], b"y", b"ab", b"xyy", b"abcd", b"yyyy", b"gqwe"] {
        let code = WubiCode::try_from(letters).unwrap();
        assert_eq!(code.to_bytes(), letters.to_vec());
        assert_eq!(WubiCode::try_from(code.to_bytes().as_slice()), Ok(code));
    }
}

#[test]
fn render_stops_at_the_first_gap() {
    let code = WubiCode::from_index(17576 + 3 * 26).unwrap();
    assert_eq!(code.to_bytes(), b"a".to_vec());
}

#[test]
fn from_index_wants_a_first_letter() {
    assert!(WubiCode::from_index(0).is_none());
    assert!(WubiCode::from_index(17575).is_none());
    assert!(WubiCode::from_index(17576).is_some());
    assert!(WubiCode::from_index(456975).is_some());
    assert!(WubiCode::from_index(456976).is_none());
}

#[test]
fn shorter_code_comes_before_longer_with_same_prefix() {
    let a = WubiCode::try_from(b"a".as_slice()).unwrap();
    let aa = WubiCode::try_from(b"aa".as_slice()).unwrap();
    let ab = WubiCode::try_from(b"ab".as_slice()).unwrap();
    let b = WubiCode::try_from(b"b".as_slice()).unwrap();
    assert!(a.lt(&aa));
    assert!(aa.lt(&ab));
    assert!(ab.lt(&b));
    assert!(!b.lt(&a));
    assert!(!a.lt(&a));
}
