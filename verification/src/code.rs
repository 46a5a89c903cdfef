use vstd::prelude::*;
use crate::error::ParseError;
use crate::text::{bytes_text, push_bytes};

verus! {

/// The number of indices: 26 to the power of 4.
pub const INDEX_UPPER_BOUND: usize = 456976;

/// Whether a byte is one of the 25 letters `a..=y`.
pub open spec fn is_letter(b: u8) -> bool {
    0x61 <= b <= 0x79
}

/// The digit that stands for a letter: `a` is 1, `y` is 25.
pub open spec fn letter_value(b: u8) -> int {
    b - 0x60
}

/// The letter that stands for a digit from 1 to 25.
pub open spec fn digit_letter(d: int) -> u8 {
    (d + 0x60) as u8
}

/// The weight of digit position `i`, position 0 being the leftmost letter.
pub open spec fn place(i: int) -> int {
    if i == 0 {
        17576
    } else if i == 1 {
        676
    } else if i == 2 {
        26
    } else {
        1
    }
}

/// The digit that a string of letters has at position `i`: 0 behind its end.
pub open spec fn padded(s: Seq<u8>, i: int) -> int {
    if 0 <= i < s.len() {
        letter_value(s[i])
    } else {
        0
    }
}

/// One to four letters from `a` to `y`.
pub open spec fn valid_letters(s: Seq<u8>) -> bool {
    &&& 1 <= s.len() <= 4
    &&& forall|i: int| 0 <= i < s.len() ==> is_letter(#[trigger] s[i])
}

/// The index of a string of letters: the sum of its digits, each times the weight
/// of its position.
pub open spec fn letters_index(s: Seq<u8>) -> int {
    padded(s, 0) * 17576 + padded(s, 1) * 676 + padded(s, 2) * 26 + padded(s, 3)
}

/// The base-26 digit of an index at position `i`.
pub open spec fn digit(index: int, i: int) -> int {
    (index / place(i)) % 26
}

/// The number of letters that an index renders to: its digits up to the first 0.
pub open spec fn letter_count(index: int) -> int {
    if digit(index, 0) == 0 {
        0
    } else if digit(index, 1) == 0 {
        1
    } else if digit(index, 2) == 0 {
        2
    } else if digit(index, 3) == 0 {
        3
    } else {
        4
    }
}

/// The letters of an index: one for each digit before the first 0.
pub open spec fn index_letters(index: int) -> Seq<u8> {
    Seq::new(letter_count(index) as nat, |i: int| digit_letter(digit(index, i)))
}

/// An index that stands for a code: its first digit is a letter.
pub open spec fn is_code_index(index: int) -> bool {
    17576 <= index < 456976
}

/// An index whose letters leave no gap: behind a 0 digit only 0 digits follow.
pub open spec fn is_compact_index(index: int) -> bool {
    &&& is_code_index(index)
    &&& digit(index, 1) == 0 ==> digit(index, 2) == 0
    &&& digit(index, 2) == 0 ==> digit(index, 3) == 0
}

/// The order of two strings of letters in which a string comes before every
/// longer one that it begins.
pub open spec fn precedes(a: Seq<u8>, b: Seq<u8>) -> bool {
    ||| padded(a, 0) < padded(b, 0)
    ||| padded(a, 0) == padded(b, 0) && padded(a, 1) < padded(b, 1)
    ||| padded(a, 0) == padded(b, 0) && padded(a, 1) == padded(b, 1) && padded(a, 2) < padded(
        b,
        2,
    )
    ||| padded(a, 0) == padded(b, 0) && padded(a, 1) == padded(b, 1) && padded(a, 2) == padded(
        b,
        2,
    ) && padded(a, 3) < padded(b, 3)
}

/// What reading a code from a string of bytes gives: the code with the index of
/// the letters, `Empty` for no bytes, `TooLongCode` with the bytes for more than
/// four, and `NotValidChar` for a byte that is no letter from `a` to `y`.
pub open spec fn parse_outcome(bytes: Seq<u8>, r: Result<WubiCode, ParseError>) -> bool {
    match r {
        Ok(code) => valid_letters(bytes) && code.spec_index() == letters_index(bytes),
        Err(ParseError::Empty) => bytes.len() == 0,
        Err(ParseError::TooLongCode(kept)) => bytes.len() > 4 && kept@ == bytes,
        Err(ParseError::NotValidChar) => 1 <= bytes.len() <= 4 && !valid_letters(bytes),
        Err(_) => false,
    }
}

/// A Wubi code, held as its index.
#[derive(PartialEq, Eq, Structural, Debug, Clone, Copy)]
pub struct WubiCode {
    index: u32,
}

impl View for WubiCode {
    type V = Seq<u8>;

    /// The letters of the code.
    open spec fn view(&self) -> Seq<u8> {
        index_letters(self.spec_index())
    }
}

impl WubiCode {
    /// The index of the code.
    pub closed spec fn spec_index(self) -> int {
        self.index as int
    }

    /// Every code begins with a letter.
    #[verifier::type_invariant]
    pub open spec fn wf(self) -> bool {
        is_code_index(self.spec_index())
    }

    /// The code's index, a number from 26^3 up to 26^4 - 1.
    pub fn index(&self) -> (r: u32)
        ensures
            r == self.spec_index(),
            is_code_index(r as int),
    {
        proof {
            use_type_invariant(self);
        }
        self.index
    }

    /// The code with the given index, where the index begins with a letter.
    pub fn from_index(index: u32) -> (r: Option<WubiCode>)
        ensures
            r is Some <==> is_code_index(index as int),
            r matches Some(c) ==> c.spec_index() == index,
    {
        if 17576 <= index && index < 456976 {
            Some(WubiCode { index })
        } else {
            None
        }
    }

    /// Reads a code from its letters.
    ///
    /// An empty string gives `Empty`, one of more than four bytes `TooLongCode`
    /// with the bytes, and a byte that is no letter from `a` to `y` gives
    /// `NotValidChar`.
    pub fn try_from(value: &[u8]) -> (r: Result<WubiCode, ParseError>)
        ensures
            parse_outcome(value@, r),
            r matches Ok(c) ==> c@ == value@ && is_compact_index(c.spec_index()),
    {
        let n: usize = value.len();
        if n == 0 {
            return Err(ParseError::Empty);
        }
        if n > 4 {
            return Err(ParseError::TooLongCode(vstd::slice::slice_to_vec(value)));
        }
        let mut index: u32 = 0;
        let mut i: usize = 0;
        while i < n
            invariant
                n == value@.len(),
                1 <= n <= 4,
                i <= n,
                forall|j: int| 0 <= j < i ==> is_letter(#[trigger] value@[j]),
                index == letters_index(value@.take(i as int)),
            decreases n - i,
        {
            let b: u8 = value[i];
            if b < 0x61 || b > 0x79 {
                return Err(ParseError::NotValidChar);
            }
            let d: u32 = (b - 0x60) as u32;
            let w: u32 = if i == 0 {
                17576
            } else if i == 1 {
                676
            } else if i == 2 {
                26
            } else {
                1
            };
            proof {
                let s = value@.take(i as int);
                let t = value@.take(i + 1);
                assert(forall|j: int| 0 <= j < i ==> s[j] == t[j]);
                assert(t[i as int] == b);
                assert(forall|j: int| 0 <= j < i ==> is_letter(#[trigger] s[j]));
            }
            index = index + d * w;
            i = i + 1;
        }
        proof {
            assert(value@.take(n as int) =~= value@);
            lemma_letters_round_trip(value@);
        }
        Ok(WubiCode { index })
    }

    /// The letters of the code: one for each digit before the first 0.
    ///
    /// Of a code that was read from letters these are the letters, and reading
    /// them gives the code again.
    pub fn to_bytes(self) -> (r: Vec<u8>)
        ensures
            r@ == self@,
            1 <= r@.len() <= 4,
            is_compact_index(self.spec_index()) ==> parse_outcome(
                r@,
                Ok::<WubiCode, ParseError>(self),
            ),
    {
        proof {
            use_type_invariant(self);
            if is_compact_index(self.spec_index()) {
                lemma_index_round_trip(self.spec_index());
            }
        }
        index_bytes(self.index)
    }

    /// The letters of the code as a text.
    pub fn to_string(&self) -> (r: String)
        ensures
            r@ == bytes_text(self@),
    {
        let letters = self.to_bytes();
        let mut text = String::new();
        push_bytes(&mut text, letters.as_slice());
        assert(text@ =~= bytes_text(self@));
        text
    }

    /// Whether this code comes before the other: codes are ordered by index.
    pub fn lt(&self, other: &WubiCode) -> (r: bool)
        ensures
            r == (self.spec_index() < other.spec_index()),
    {
        self.index < other.index
    }
}

/// The indices of a list of codes.
pub open spec fn indices(codes: Seq<WubiCode>) -> Seq<int> {
    Seq::new(codes.len(), |i: int| codes[i].spec_index())
}

/// The letters of an index: one for each digit before the first 0.
pub fn index_bytes(index: u32) -> (r: Vec<u8>)
    ensures
        r@ == index_letters(index as int),
{
    let mut out: Vec<u8> = Vec::new();
    let d0: u32 = (index / 17576) % 26;
    let d1: u32 = (index / 676) % 26;
    let d2: u32 = (index / 26) % 26;
    let d3: u32 = index % 26;
    if d0 != 0 {
        out.push((d0 + 0x60) as u8);
        if d1 != 0 {
            out.push((d1 + 0x60) as u8);
            if d2 != 0 {
                out.push((d2 + 0x60) as u8);
                if d3 != 0 {
                    out.push((d3 + 0x60) as u8);
                }
            }
        }
    }
    assert(out@ =~= index_letters(index as int));
    out
}

/// The digits of a sum of four weighted digits are those four digits.
pub proof fn lemma_digits(a: int, b: int, c: int, d: int)
    requires
        0 <= a <= 25,
        0 <= b <= 25,
        0 <= c <= 25,
        0 <= d <= 25,
    ensures
        digit(a * 17576 + b * 676 + c * 26 + d, 0) == a,
        digit(a * 17576 + b * 676 + c * 26 + d, 1) == b,
        digit(a * 17576 + b * 676 + c * 26 + d, 2) == c,
        digit(a * 17576 + b * 676 + c * 26 + d, 3) == d,
{
    let x = a * 17576 + b * 676 + c * 26 + d;
    assert(x / 17576 == a);
    assert(x / 676 == a * 26 + b);
    assert(x / 26 == a * 676 + b * 26 + c);
}

/// Reading the letters of a string back from its index gives the string, and the
/// index leaves no gap.
pub proof fn lemma_letters_round_trip(s: Seq<u8>)
    requires
        valid_letters(s),
    ensures
        is_compact_index(letters_index(s)),
        index_letters(letters_index(s)) == s,
{
    let x = letters_index(s);
    assert(is_letter(s[0]));
    if s.len() > 1 {
        assert(is_letter(s[1]));
    }
    if s.len() > 2 {
        assert(is_letter(s[2]));
    }
    if s.len() > 3 {
        assert(is_letter(s[3]));
    }
    let (a, b, c, d) = (padded(s, 0), padded(s, 1), padded(s, 2), padded(s, 3));
    lemma_digits(a, b, c, d);
    assert(x == a * 17576 + b * 676 + c * 26 + d);
    assert(digit(x, 0) == a && digit(x, 1) == b && digit(x, 2) == c && digit(x, 3) == d);
    assert(x >= 17576);
    assert(letter_count(x) == s.len());
    assert forall|i: int| 0 <= i < s.len() implies digit_letter(digit(x, i)) == s[i] by {
        assert(is_letter(s[i]));
        assert(digit(x, i) == padded(s, i));
    }
    assert(index_letters(x) =~= s);
}

/// The letters of an index without a gap are one to four letters, and their
/// index is the index they came from.
pub proof fn lemma_index_round_trip(index: int)
    requires
        is_compact_index(index),
    ensures
        valid_letters(index_letters(index)),
        letters_index(index_letters(index)) == index,
{
    let s = index_letters(index);
    assert(index == digit(index, 0) * 17576 + digit(index, 1) * 676 + digit(index, 2) * 26
        + digit(index, 3));
    assert forall|i: int| 0 <= i < s.len() implies is_letter(#[trigger] s[i]) by {
        assert(s[i] == digit_letter(digit(index, i)));
    }
}

/// A code read from letters renders to those letters, and a code without a gap
/// is read back from what it renders to.
pub proof fn lemma_code_round_trip(c: WubiCode, s: Seq<u8>)
    requires
        c.wf(),
    ensures
        valid_letters(s) && c.spec_index() == letters_index(s) ==> c@ == s,
        is_compact_index(c.spec_index()) ==> valid_letters(c@) && letters_index(c@)
            == c.spec_index(),
{
    if valid_letters(s) {
        lemma_letters_round_trip(s);
    }
    if is_compact_index(c.spec_index()) {
        lemma_index_round_trip(c.spec_index());
    }
}

/// The order of two strings of bytes by their first bytes that differ, a string
/// coming before every longer one that it begins.
pub open spec fn letters_lt(a: Seq<u8>, b: Seq<u8>) -> bool
    decreases a.len(),
{
    if b.len() == 0 {
        false
    } else if a.len() == 0 {
        true
    } else if a[0] != b[0] {
        a[0] < b[0]
    } else {
        letters_lt(a.drop_first(), b.drop_first())
    }
}

/// On strings of letters, the order by padded digits is the order by the
/// first bytes that differ.
pub proof fn lemma_precedes_is_letters_lt(a: Seq<u8>, b: Seq<u8>)
    requires
        a.len() <= 4,
        b.len() <= 4,
        forall|i: int| 0 <= i < a.len() ==> is_letter(#[trigger] a[i]),
        forall|i: int| 0 <= i < b.len() ==> is_letter(#[trigger] b[i]),
    ensures
        precedes(a, b) <==> letters_lt(a, b),
    decreases a.len(),
{
    if a.len() > 0 && b.len() > 0 {
        assert(is_letter(a[0]) && is_letter(b[0]));
        if a[0] == b[0] {
            let x = a.drop_first();
            let y = b.drop_first();
            assert forall|i: int| 0 <= i < 3 implies padded(x, i) == padded(a, i + 1) by {}
            assert forall|i: int| 0 <= i < 3 implies padded(y, i) == padded(b, i + 1) by {}
            assert(padded(x, 3) == 0 && padded(y, 3) == 0);
            lemma_precedes_is_letters_lt(x, y);
            assert(padded(x, 0) == padded(a, 1) && padded(x, 1) == padded(a, 2) && padded(x, 2)
                == padded(a, 3));
            assert(padded(y, 0) == padded(b, 1) && padded(y, 1) == padded(b, 2) && padded(y, 2)
                == padded(b, 3));
        }
    } else if b.len() > 0 {
        assert(is_letter(b[0]));
    } else {
        assert forall|i: int| 0 <= i < 4 implies padded(a, i) >= 0 by {
            if i < a.len() {
                assert(is_letter(a[i]));
            }
        }
    }
}

/// The order of the codes' indices is the order of their letters.
pub proof fn lemma_index_order_is_letter_order(a: Seq<u8>, b: Seq<u8>)
    requires
        valid_letters(a),
        valid_letters(b),
    ensures
        letters_index(a) < letters_index(b) <==> letters_lt(a, b),
{
    lemma_index_order(a, b);
    lemma_precedes_is_letters_lt(a, b);
}

/// The order of the indices is the order of the letters in which a string comes
/// before every longer one that it begins.
pub proof fn lemma_index_order(a: Seq<u8>, b: Seq<u8>)
    requires
        valid_letters(a),
        valid_letters(b),
    ensures
        letters_index(a) < letters_index(b) <==> precedes(a, b),
{
    assert(forall|i: int| 0 <= i < a.len() ==> is_letter(#[trigger] a[i]));
    assert(forall|i: int| 0 <= i < b.len() ==> is_letter(#[trigger] b[i]));
    assert(0 <= padded(a, 0) <= 25 && 0 <= padded(a, 1) <= 25 && 0 <= padded(a, 2) <= 25 && 0
        <= padded(a, 3) <= 25);
    assert(0 <= padded(b, 0) <= 25 && 0 <= padded(b, 1) <= 25 && 0 <= padded(b, 2) <= 25 && 0
        <= padded(b, 3) <= 25);
}

} // verus!
