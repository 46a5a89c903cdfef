use vstd::prelude::*;

verus! {

/// The outcome of `u32::from_str_radix` on text that is no number.
#[verifier::external_type_specification]
#[verifier::external_body]
pub struct ExParseIntError(std::num::ParseIntError);

/// What can be wrong with an input record.
#[derive(Debug, PartialEq, Eq)]
pub enum ParseError {
    /// A record breaks the format in a way that no other variant names.
    Invalid,
    /// The code field is empty.
    Empty,
    /// The code field holds more than four letters; the field's bytes are kept.
    TooLongCode(Vec<u8>),
    /// A letter outside `a..=y`, or a character outside the accepted range.
    NotValidChar,
    /// The line holds no tab; the line is kept.
    NoTab(String),
    /// The character field does not hold exactly one character; the field is kept.
    MultipleCharacters(String),
    /// The code point field is no hexadecimal number.
    ParseInt(std::num::ParseIntError),
    /// The code point field names another character than the one beside it.
    CodepointMismatch,
    /// The simplified code is already taken.
    DuplicateCode,
    /// The phrase is already in the full table.
    DuplicatePhrase,
    /// A character of a phrase has no code in the full table.
    MissingCharacterCode,
}

} // verus!
