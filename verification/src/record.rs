use vstd::prelude::*;
use vstd::string::*;
use vstd::utf8::encode_utf8;
use crate::code::{parse_outcome, WubiCode};
use crate::error::ParseError;
use crate::full::WubiEntry;
use crate::text::char_text;

verus! {

/// The position of the first tab of a line, or the line's length if it has none.
pub open spec fn tab_position(line: Seq<char>) -> int
    decreases line.len(),
{
    if line.len() == 0 {
        0
    } else if line[0] == '\t' {
        0
    } else {
        1 + tab_position(line.drop_first())
    }
}

/// Whether a line holds a tab.
pub open spec fn has_tab(line: Seq<char>) -> bool {
    tab_position(line) < line.len()
}

/// The part of a line before its first tab.
pub open spec fn before_tab(line: Seq<char>) -> Seq<char> {
    line.take(tab_position(line))
}

/// The part of a line behind its first tab.
pub open spec fn after_tab(line: Seq<char>) -> Seq<char> {
    line.skip(tab_position(line) + 1)
}

/// The first tab is where a tab stands with no tab before it.
pub proof fn lemma_tab_position(line: Seq<char>, at: int)
    requires
        0 <= at <= line.len(),
        forall|k: int| 0 <= k < at ==> line[k] != '\t',
        at < line.len() ==> line[at] == '\t',
    ensures
        tab_position(line) == at,
    decreases at,
{
    if at > 0 {
        let rest = line.drop_first();
        assert forall|k: int| 0 <= k < at - 1 implies rest[k] != '\t' by {
            assert(rest[k] == line[k + 1]);
        }
        lemma_tab_position(rest, at - 1);
    }
}

/// Splits a line at its first tab; `None` for a line without a tab.
pub fn split_at_tab(line: &str) -> (r: Option<(&str, &str)>)
    ensures
        r is Some <==> has_tab(line@),
        r matches Some(parts) ==> parts.0@ == before_tab(line@) && parts.1@ == after_tab(line@),
{
    let n: usize = line.unicode_len();
    let mut i: usize = 0;
    while i < n
        invariant
            n == line@.len(),
            i <= n,
            forall|k: int| 0 <= k < i ==> line@[k] != '\t',
        decreases n - i,
    {
        if line.get_char(i) == '\t' {
            proof {
                lemma_tab_position(line@, i as int);
            }
            let head = line.substring_char(0, i);
            let tail = line.substring_char(i + 1, n);
            assert(head@ =~= before_tab(line@));
            assert(tail@ =~= after_tab(line@));
            return Some((head, tail));
        }
        i = i + 1;
    }
    proof {
        lemma_tab_position(line@, n as int);
    }
    None
}

/// The number that a text spells in base 16, as `u32::from_str_radix` reads it,
/// or `None` where the text spells none.
pub uninterp spec fn radix16_value(text: Seq<char>) -> Option<u32>;

/// `u32::from_str_radix` with radix 16: the number that the text spells, or
/// the reason why it spells none.
#[verifier::external_body]
fn parse_hex(text: &str) -> (r: Result<u32, std::num::ParseIntError>)
    ensures
        match r {
            Ok(value) => radix16_value(text@) == Some(value),
            Err(_) => radix16_value(text@) is None,
        },
{
    u32::from_str_radix(text, 16)
}

/// What a character with a code field gives: the entry of the character with
/// the code that the field spells, or what is wrong with the field.
pub open spec fn entry_outcome(ch: char, code: Seq<u8>, r: Result<WubiEntry, ParseError>) -> bool {
    match r {
        Ok(entry) => entry.phrase@ == seq![ch] && parse_outcome(
            code,
            Ok::<WubiCode, ParseError>(entry.wubi_code),
        ),
        Err(e) => parse_outcome(code, Err::<WubiCode, ParseError>(e)),
    }
}

/// The entry of a character and a code field.
pub fn character_entry(ch: char, code: &str) -> (r: Result<WubiEntry, ParseError>)
    ensures
        entry_outcome(ch, code.spec_bytes(), r),
{
    match WubiCode::try_from(code.as_bytes()) {
        Ok(wubi_code) => Ok(WubiEntry { phrase: char_text(ch), wubi_code }),
        Err(e) => Err(e),
    }
}

/// What a line of a character and a code gives.
///
/// A line without a tab gives `NoTab` with the line; a first field that is not
/// one character gives `MultipleCharacters` with the field; else the second
/// field is read as a code.
pub open spec fn plain_line_outcome(line: Seq<char>, r: Result<WubiEntry, ParseError>) -> bool {
    if !has_tab(line) {
        r matches Err(ParseError::NoTab(kept)) && kept@ == line
    } else if before_tab(line).len() != 1 {
        r matches Err(ParseError::MultipleCharacters(kept)) && kept@ == before_tab(line)
    } else {
        entry_outcome(before_tab(line)[0], encode_utf8(after_tab(line)), r)
    }
}

/// Reads a line `<char>\\t<code>`.
pub fn parse_line_without_codepoint(line: &str) -> (r: Result<WubiEntry, ParseError>)
    ensures
        plain_line_outcome(line@, r),
{
    match split_at_tab(line) {
        None => Err(ParseError::NoTab(String::from_str(line))),
        Some((field, code)) => {
            if field.unicode_len() != 1 {
                return Err(ParseError::MultipleCharacters(String::from_str(field)));
            }
            character_entry(field.get_char(0), code)
        },
    }
}

/// Whether a code point field begins with `U+`.
pub open spec fn has_prefix(field: Seq<char>) -> bool {
    field.len() >= 2 && field[0] == 'U' && field[1] == '+'
}

/// What a character, the number read from its code point field, and a code
/// field give: `CodepointMismatch` where the number is not the character's, else
/// the entry of the character and the code.
pub open spec fn checked_outcome(
    number: u32,
    ch: char,
    code: Seq<u8>,
    r: Result<WubiEntry, ParseError>,
) -> bool {
    if number != ch as u32 {
        r matches Err(ParseError::CodepointMismatch)
    } else {
        entry_outcome(ch, code, r)
    }
}

/// The entry of a character and a code field, where the number from the code
/// point field is the character's.
pub fn checked_entry(number: u32, ch: char, code: &str) -> (r: Result<WubiEntry, ParseError>)
    ensures
        checked_outcome(number, ch, code.spec_bytes(), r),
{
    if number != ch as u32 {
        return Err(ParseError::CodepointMismatch);
    }
    character_entry(ch, code)
}

/// What a line of a code point, a character and a code gives.
///
/// A line with fewer than two tabs gives `NoTab` with the line; a second field
/// that is not one character gives `MultipleCharacters` with the field; a first
/// field that does not begin with `U+` gives `CodepointMismatch`; one whose rest
/// spells no number in base 16 gives `ParseInt`; else the number is held against
/// the character and the third field is read as a code.
pub open spec fn codepoint_line_outcome(line: Seq<char>, r: Result<WubiEntry, ParseError>) -> bool {
    let rest = after_tab(line);
    let field = before_tab(line);
    if !has_tab(line) || !has_tab(rest) {
        r matches Err(ParseError::NoTab(kept)) && kept@ == line
    } else if before_tab(rest).len() != 1 {
        r matches Err(ParseError::MultipleCharacters(kept)) && kept@ == before_tab(rest)
    } else if !has_prefix(field) {
        r matches Err(ParseError::CodepointMismatch)
    } else {
        match radix16_value(field.skip(2)) {
            None => r matches Err(ParseError::ParseInt(_)),
            Some(number) => checked_outcome(
                number,
                before_tab(rest)[0],
                encode_utf8(after_tab(rest)),
                r,
            ),
        }
    }
}

/// Reads a line `U+<hex>\\t<char>\\t<code>`.
pub fn parse_line_with_codepoint(line: &str) -> (r: Result<WubiEntry, ParseError>)
    ensures
        codepoint_line_outcome(line@, r),
{
    let (field, rest) = match split_at_tab(line) {
        Some(parts) => parts,
        None => {
            return Err(ParseError::NoTab(String::from_str(line)));
        },
    };
    let (character, code) = match split_at_tab(rest) {
        Some(parts) => parts,
        None => {
            return Err(ParseError::NoTab(String::from_str(line)));
        },
    };
    if character.unicode_len() != 1 {
        return Err(ParseError::MultipleCharacters(String::from_str(character)));
    }
    let ch: char = character.get_char(0);
    let n: usize = field.unicode_len();
    if n < 2 || field.get_char(0) != 'U' || field.get_char(1) != '+' {
        return Err(ParseError::CodepointMismatch);
    }
    match parse_hex(field.substring_char(2, n)) {
        Ok(number) => checked_entry(number, ch, code),
        Err(e) => Err(ParseError::ParseInt(e)),
    }
}

} // verus!
