use vstd::prelude::*;
use arrayvec::ArrayVec;
use crate::code::{indices, is_code_index, WubiCode, INDEX_UPPER_BOUND};
use crate::error::ParseError;
use crate::text::lemma_distinct_chars;

verus! {

/// The first character that the table accepts.
pub const CHAR_MIN: char = '\u{2eb3}';

/// The last character that the table accepts.
pub const CHAR_MAX: char = '\u{9fff}';

/// The number of characters that the table accepts.
pub const CHAR_COUNT: usize = 29005;

/// The most codes that one character can have.
pub const CODES_PER_CHAR: usize = 3;

/// `arrayvec::ArrayVec`: a vector of at most `CAP` items that are stored inline.
#[verifier::external_type_specification]
#[verifier::external_body]
#[verifier::reject_recursive_types(T)]
pub struct ExArrayVec<T, const CAP: usize>(ArrayVec<T, CAP>);

/// The items that a list of codes holds, first pushed first.
pub uninterp spec fn stored_codes(list: ArrayVec<u32, CODES_PER_CHAR>) -> Seq<u32>;

/// `ArrayVec::new`: a list that holds nothing.
#[verifier::external_body]
fn codes_new() -> (list: ArrayVec<u32, CODES_PER_CHAR>)
    ensures
        stored_codes(list) == Seq::<u32>::empty(),
{
    ArrayVec::new()
}

/// `ArrayVec::len`: the number of items that the list holds.
#[verifier::external_body]
fn codes_len(list: &ArrayVec<u32, CODES_PER_CHAR>) -> (n: usize)
    ensures
        n == stored_codes(*list).len(),
{
    list.len()
}

/// `ArrayVec::try_push`: puts the item behind the others where the list holds
/// fewer than three, and says so; a list of three stays as it is.
#[verifier::external_body]
fn codes_try_push(list: &mut ArrayVec<u32, CODES_PER_CHAR>, code: u32) -> (pushed: bool)
    ensures
        pushed == (stored_codes(*old(list)).len() < CODES_PER_CHAR),
        pushed ==> stored_codes(*final(list)) == stored_codes(*old(list)).push(code),
        !pushed ==> stored_codes(*final(list)) == stored_codes(*old(list)),
{
    list.try_push(code).is_ok()
}

/// Indexing an `ArrayVec` through its slice: the item at position `i`.
#[verifier::external_body]
fn codes_get(list: &ArrayVec<u32, CODES_PER_CHAR>, i: usize) -> (code: u32)
    requires
        i < stored_codes(*list).len(),
    ensures
        code == stored_codes(*list)[i as int],
{
    list[i]
}

/// The characters that a list with a slot for every index holds, slot by slot.
pub uninterp spec fn stored_chars(list: ArrayVec<Option<char>, INDEX_UPPER_BOUND>) -> Seq<Option<char>>;

/// `ArrayVec::new`, boxed: a list that holds nothing.
#[verifier::external_body]
fn chars_new() -> (list: Box<ArrayVec<Option<char>, INDEX_UPPER_BOUND>>)
    ensures
        stored_chars(*list) == Seq::<Option<char>>::empty(),
{
    Box::new(ArrayVec::new())
}

/// `ArrayVec::push`: puts the item behind the others. The list must not be
/// full.
#[verifier::external_body]
fn chars_push(list: &mut ArrayVec<Option<char>, INDEX_UPPER_BOUND>, item: Option<char>)
    requires
        stored_chars(*old(list)).len() < INDEX_UPPER_BOUND,
    ensures
        stored_chars(*final(list)) == stored_chars(*old(list)).push(item),
{
    list.push(item)
}

/// Indexing an `ArrayVec` through its slice: the item at position `i`.
#[verifier::external_body]
fn chars_get(
    list: &ArrayVec<Option<char>, INDEX_UPPER_BOUND>,
    i: usize,
) -> (item: &Option<char>)
    requires
        i < stored_chars(*list).len(),
    ensures
        *item == stored_chars(*list)[i as int],
{
    &list[i]
}

/// Indexing an `ArrayVec` through its mutable slice: the item at position `i`,
/// to be changed in place; the other items stay.
#[verifier::external_body]
fn chars_get_mut(
    list: &mut ArrayVec<Option<char>, INDEX_UPPER_BOUND>,
    i: usize,
) -> (item: &mut Option<char>)
    requires
        i < stored_chars(*old(list)).len(),
    ensures
        *item == stored_chars(*old(list))[i as int],
        stored_chars(*final(list)) == stored_chars(*old(list)).update(i as int, *final(item)),
{
    &mut list[i]
}

/// What the lists hold that a list with a slot for every character holds, slot
/// by slot.
pub uninterp spec fn stored_lists(list: ArrayVec<ArrayVec<u32, CODES_PER_CHAR>, CHAR_COUNT>) -> Seq<Seq<u32>>;

/// `ArrayVec::new`, boxed: a list that holds nothing.
#[verifier::external_body]
fn lists_new() -> (list: Box<ArrayVec<ArrayVec<u32, CODES_PER_CHAR>, CHAR_COUNT>>)
    ensures
        stored_lists(*list) == Seq::<Seq<u32>>::empty(),
{
    Box::new(ArrayVec::new())
}

/// `ArrayVec::push`: puts the item behind the others. The list must not be
/// full.
#[verifier::external_body]
fn lists_push(
    list: &mut ArrayVec<ArrayVec<u32, CODES_PER_CHAR>, CHAR_COUNT>,
    item: ArrayVec<u32, CODES_PER_CHAR>,
)
    requires
        stored_lists(*old(list)).len() < CHAR_COUNT,
    ensures
        stored_lists(*final(list)) == stored_lists(*old(list)).push(stored_codes(item)),
{
    list.push(item)
}

/// Indexing an `ArrayVec` through its slice: the item at position `i`.
#[verifier::external_body]
fn lists_get(
    list: &ArrayVec<ArrayVec<u32, CODES_PER_CHAR>, CHAR_COUNT>,
    i: usize,
) -> (item: &ArrayVec<u32, CODES_PER_CHAR>)
    requires
        i < stored_lists(*list).len(),
    ensures
        stored_codes(*item) == stored_lists(*list)[i as int],
{
    &list[i]
}

/// Indexing an `ArrayVec` through its mutable slice: the item at position `i`,
/// to be changed in place; the other items stay.
#[verifier::external_body]
fn lists_get_mut(
    list: &mut ArrayVec<ArrayVec<u32, CODES_PER_CHAR>, CHAR_COUNT>,
    i: usize,
) -> (item: &mut ArrayVec<u32, CODES_PER_CHAR>)
    requires
        i < stored_lists(*old(list)).len(),
    ensures
        stored_codes(*item) == stored_lists(*old(list))[i as int],
        stored_lists(*final(list)) == stored_lists(*old(list)).update(
            i as int,
            stored_codes(*final(item)),
        ),
{
    &mut list[i]
}

/// Whether the table accepts a character.
pub open spec fn char_in_range(ch: char) -> bool {
    0x2eb3 <= ch as u32 <= 0x9fff
}

/// The character that the slot at a position is for.
pub open spec fn slot_char(slot: int) -> char {
    ((slot + 0x2eb3) as u32) as char
}

/// What putting a character under the code with the given index does to the
/// table. A code that is taken gives `DuplicateCode`, a character outside the
/// accepted range `NotValidChar`, and a character that has three codes already
/// `Invalid`, and the table stays as it was; else the character stands under
/// the code, and the code behind the character's other codes.
pub open spec fn insert_outcome(
    before: SimplifiedCodeTable,
    after: SimplifiedCodeTable,
    index: int,
    ch: char,
    r: Result<(), ParseError>,
) -> bool {
    if before.char_at(index) is Some {
        r == Err::<(), ParseError>(ParseError::DuplicateCode) && after == before
    } else if !char_in_range(ch) {
        r == Err::<(), ParseError>(ParseError::NotValidChar) && after == before
    } else if before.codes_of(ch).len() >= 3 {
        r == Err::<(), ParseError>(ParseError::Invalid) && after == before
    } else {
        &&& r is Ok
        &&& forall|at: int|
            after.char_at(at) == if at == index {
                Some(ch)
            } else {
                before.char_at(at)
            }
        &&& forall|other: char|
            after.codes_of(other) == if other == ch {
                before.codes_of(ch).push(index as u32)
            } else {
                before.codes_of(other)
            }
    }
}

/// A code that has been given to a character is taken: putting any character
/// under it again gives `DuplicateCode`.
pub proof fn lemma_code_is_taken_once(
    start: SimplifiedCodeTable,
    first: SimplifiedCodeTable,
    second: SimplifiedCodeTable,
    index: int,
    ch: char,
    other: char,
    r: Result<(), ParseError>,
)
    requires
        insert_outcome(start, first, index, ch, Ok::<(), ParseError>(())),
        insert_outcome(first, second, index, other, r),
    ensures
        r == Err::<(), ParseError>(ParseError::DuplicateCode),
        second == first,
{
    assert(first.char_at(index) == Some(ch));
}

/// The shortcut codes of frequent characters: one character for a code, and up
/// to three codes for a character, in the order in which they were put in.
pub struct SimplifiedCodeTable {
    code_to_char: Box<ArrayVec<Option<char>, INDEX_UPPER_BOUND>>,
    char_to_code: Box<ArrayVec<ArrayVec<u32, CODES_PER_CHAR>, CHAR_COUNT>>,
}

impl SimplifiedCodeTable {
    /// Both arrays have a slot for every index and every character.
    pub closed spec fn shaped(&self) -> bool {
        &&& stored_chars(*self.code_to_char).len() == INDEX_UPPER_BOUND
        &&& stored_lists(*self.char_to_code).len() == CHAR_COUNT
    }

    /// The character that stands under an index.
    pub closed spec fn char_at(&self, index: int) -> Option<char> {
        if 0 <= index < stored_chars(*self.code_to_char).len() {
            stored_chars(*self.code_to_char)[index]
        } else {
            None
        }
    }

    /// The indices of the codes of a character, first put in first.
    pub closed spec fn codes_of(&self, ch: char) -> Seq<u32> {
        if char_in_range(ch) && ch as u32 - 0x2eb3 < stored_lists(*self.char_to_code).len() {
            stored_lists(*self.char_to_code)[ch as u32 - 0x2eb3]
        } else {
            Seq::empty()
        }
    }

    /// The two directions say the same: a character stands under a code exactly
    /// if the code is among the character's codes, where it stands once.
    pub open spec fn wf(&self) -> bool {
        &&& self.shaped()
        &&& forall|index: int| #[trigger]
            self.char_at(index) is Some ==> {
                &&& is_code_index(index)
                &&& char_in_range(self.char_at(index).unwrap())
                &&& self.codes_of(self.char_at(index).unwrap()).contains(index as u32)
            }
        &&& forall|ch: char, j: int|
            0 <= j < self.codes_of(ch).len() ==> self.char_at(
                (#[trigger] self.codes_of(ch)[j]) as int,
            ) == Some(ch)
        &&& forall|ch: char| (#[trigger] self.codes_of(ch)).no_duplicates()
        &&& forall|ch: char| (#[trigger] self.codes_of(ch)).len() <= 3
    }

    /// A character outside the accepted range has no codes.
    pub proof fn lemma_codes_in_range(&self, ch: char)
        ensures
            !char_in_range(ch) ==> self.codes_of(ch) == Seq::<u32>::empty(),
    {
    }

    /// A table that holds nothing.
    pub fn new() -> (table: SimplifiedCodeTable)
        ensures
            table.wf(),
            forall|index: int| table.char_at(index) is None,
            forall|ch: char| table.codes_of(ch) == Seq::<u32>::empty(),
    {
        let mut code_to_char = chars_new();
        let mut i: usize = 0;
        while i < INDEX_UPPER_BOUND
            invariant
                i <= INDEX_UPPER_BOUND,
                stored_chars(*code_to_char).len() == i,
                forall|j: int| 0 <= j < i ==> stored_chars(*code_to_char)[j] is None,
            decreases INDEX_UPPER_BOUND - i,
        {
            chars_push(&mut *code_to_char, None);
            i = i + 1;
        }
        let mut char_to_code = lists_new();
        let mut k: usize = 0;
        while k < CHAR_COUNT
            invariant
                k <= CHAR_COUNT,
                stored_lists(*char_to_code).len() == k,
                forall|j: int| 0 <= j < k ==> stored_lists(*char_to_code)[j] == Seq::<u32>::empty(),
            decreases CHAR_COUNT - k,
        {
            lists_push(&mut *char_to_code, codes_new());
            k = k + 1;
        }
        SimplifiedCodeTable { code_to_char, char_to_code }
    }

    /// Whether the character stands under the code.
    pub fn has_pair(&self, ch: char, code: &WubiCode) -> (r: bool)
        requires
            self.wf(),
        ensures
            r == (self.char_at(code.spec_index()) == Some(ch)),
    {
        match self.char_of_code(code) {
            Some(found) => ch == *found,
            None => false,
        }
    }

    /// Puts a character under a code, and the code behind the character's other
    /// codes.
    ///
    /// A code that is taken gives `DuplicateCode`, a character outside the
    /// accepted range `NotValidChar`, and a character that has three codes
    /// already `Invalid`; the table then stays as it was.
    pub fn insert(&mut self, code: &WubiCode, ch: char) -> (r: Result<(), ParseError>)
        requires
            old(self).wf(),
        ensures
            final(self).wf(),
            insert_outcome(*old(self), *final(self), code.spec_index(), ch, r),
    {
        let index: u32 = code.index();
        if chars_get(&*self.code_to_char, index as usize).is_some() {
            return Err(ParseError::DuplicateCode);
        }
        if !(CHAR_MIN <= ch && ch <= CHAR_MAX) {
            return Err(ParseError::NotValidChar);
        }
        let slot: usize = (ch as u32 - CHAR_MIN as u32) as usize;
        if codes_len(lists_get(&*self.char_to_code, slot)) >= CODES_PER_CHAR {
            return Err(ParseError::Invalid);
        }
        assert(!old(self).codes_of(ch).contains(index)) by {
            if old(self).codes_of(ch).contains(index) {
                let j = choose|j: int|
                    0 <= j < old(self).codes_of(ch).len() && old(self).codes_of(ch)[j] == index;
                assert(old(self).char_at(old(self).codes_of(ch)[j] as int) == Some(ch));
            }
        }
        *chars_get_mut(&mut *self.code_to_char, index as usize) = Some(ch);
        let pushed = codes_try_push(lists_get_mut(&mut *self.char_to_code, slot), index);
        assert(pushed);
        proof {
            assert forall|other: char|
                self.codes_of(other) == if other == ch {
                    old(self).codes_of(ch).push(index)
                } else {
                    old(self).codes_of(other)
                } by {
                lemma_distinct_chars(other, ch);
                assert(stored_lists(*self.char_to_code) == stored_lists(
                    *old(self).char_to_code,
                ).update(
                    slot as int,
                    stored_lists(*old(self).char_to_code)[slot as int].push(index),
                ));
            }
            assert forall|i: int|
                self.char_at(i) == if i == index {
                    Some(ch)
                } else {
                    old(self).char_at(i)
                } by {}
            assert forall|i: int| #[trigger] self.char_at(i) is Some implies {
                &&& is_code_index(i)
                &&& char_in_range(self.char_at(i).unwrap())
                &&& self.codes_of(self.char_at(i).unwrap()).contains(i as u32)
            } by {
                if i == index {
                    assert(self.codes_of(ch)[old(self).codes_of(ch).len() as int] == index);
                } else {
                    let c = old(self).char_at(i).unwrap();
                    assert(old(self).codes_of(c).contains(i as u32));
                    let j = choose|j: int|
                        0 <= j < old(self).codes_of(c).len() && old(self).codes_of(c)[j]
                            == i as u32;
                    assert(self.codes_of(c)[j] == i as u32);
                }
            }
            assert forall|c: char, j: int| 0 <= j < self.codes_of(c).len() implies self.char_at(
                (#[trigger] self.codes_of(c)[j]) as int,
            ) == Some(c) by {
                if c == ch && j < old(self).codes_of(ch).len() {
                    assert(old(self).char_at(old(self).codes_of(ch)[j] as int) == Some(ch));
                } else if c != ch {
                    assert(old(self).char_at(old(self).codes_of(c)[j] as int) == Some(c));
                }
            }
            assert forall|c: char| (#[trigger] self.codes_of(c)).no_duplicates() by {
                assert(old(self).codes_of(c).no_duplicates());
            }
        }
        Ok(())
    }

    /// The codes of a character, first put in first; `None` for a character
    /// outside the accepted range.
    pub fn code_of_char(&self, ch: char) -> (r: Option<Vec<WubiCode>>)
        requires
            self.wf(),
        ensures
            r is Some <==> char_in_range(ch),
            r matches Some(codes) ==> indices(codes@) == self.codes_of(ch).map_values(
                |c: u32| c as int,
            ),
    {
        if !(CHAR_MIN <= ch && ch <= CHAR_MAX) {
            return None;
        }
        let slot: usize = (ch as u32 - CHAR_MIN as u32) as usize;
        assert(slot_char(slot as int) == ch);
        Some(self.codes_at_slot(slot))
    }

    /// The codes of the character of a slot, first put in first.
    pub fn codes_at_slot(&self, slot: usize) -> (r: Vec<WubiCode>)
        requires
            self.wf(),
            slot < CHAR_COUNT,
        ensures
            indices(r@) == self.codes_of(slot_char(slot as int)).map_values(|c: u32| c as int),
            r@.len() == self.codes_of(slot_char(slot as int)).len(),
    {
        let ghost ch = slot_char(slot as int);
        let list = lists_get(&*self.char_to_code, slot);
        let n: usize = codes_len(list);
        let mut codes: Vec<WubiCode> = Vec::new();
        let mut j: usize = 0;
        while j < n
            invariant
                self.wf(),
                ch == slot_char(slot as int),
                n == self.codes_of(ch).len(),
                stored_codes(*list) == self.codes_of(ch),
                j <= n,
                codes@.len() == j,
                forall|k: int|
                    0 <= k < j ==> (#[trigger] codes@[k]).spec_index() == self.codes_of(ch)[k],
            decreases n - j,
        {
            let index: u32 = codes_get(list, j);
            assert(self.char_at(self.codes_of(ch)[j as int] as int) == Some(ch));
            codes.push(WubiCode::from_index(index).unwrap());
            j = j + 1;
        }
        assert(indices(codes@) =~= self.codes_of(ch).map_values(|c: u32| c as int));
        codes
    }

    /// The character of a slot with the indices of its codes, if it has any.
    pub fn slot_record(&self, slot: usize) -> (r: Option<(char, Vec<u32>)>)
        requires
            self.wf(),
            slot < CHAR_COUNT,
        ensures
            r is Some <==> self.codes_of(slot_char(slot as int)).len() > 0,
            r matches Some(entry) ==> entry.0 == slot_char(slot as int) && entry.1@
                == self.codes_of(entry.0),
    {
        let ghost ch = slot_char(slot as int);
        let list = lists_get(&*self.char_to_code, slot);
        let n: usize = codes_len(list);
        if n == 0 {
            return None;
        }
        let mut codes: Vec<u32> = Vec::new();
        let mut j: usize = 0;
        while j < n
            invariant
                n == stored_codes(*list).len(),
                j <= n,
                codes@ == stored_codes(*list).take(j as int),
            decreases n - j,
        {
            codes.push(codes_get(list, j));
            assert(codes@ =~= stored_codes(*list).take(j + 1));
            j = j + 1;
        }
        assert(codes@ =~= self.codes_of(ch));
        assert(self.char_at(self.codes_of(ch)[0] as int) == Some(ch));
        // The character stands under each of its codes.
        match *chars_get(&*self.code_to_char, codes[0] as usize) {
            Some(found) => Some((found, codes)),
            None => None,
        }
    }

    /// The character of a slot with its codes, if it has any.
    pub fn slot_entry(&self, slot: usize) -> (r: Option<(char, Vec<WubiCode>)>)
        requires
            self.wf(),
            slot < CHAR_COUNT,
        ensures
            r is Some <==> self.codes_of(slot_char(slot as int)).len() > 0,
            r matches Some(entry) ==> entry.0 == slot_char(slot as int) && indices(entry.1@)
                == self.codes_of(entry.0).map_values(|c: u32| c as int),
    {
        let codes = self.codes_at_slot(slot);
        if codes.len() == 0 {
            return None;
        }
        let ghost ch = slot_char(slot as int);
        assert(indices(codes@)[0] == self.codes_of(ch).map_values(|c: u32| c as int)[0]);
        assert(self.char_at(self.codes_of(ch)[0] as int) == Some(ch));
        // The character stands under each of its codes.
        match *self.char_of_code(&codes[0]) {
            Some(found) => Some((found, codes)),
            None => None,
        }
    }

    /// The character that stands under a code, if any.
    pub fn char_of_code(&self, code: &WubiCode) -> (r: &Option<char>)
        requires
            self.shaped(),
        ensures
            *r == self.char_at(code.spec_index()),
    {
        let index: u32 = code.index();
        chars_get(&*self.code_to_char, index as usize)
    }

    /// The character that stands under a code, to be changed in place.
    ///
    /// The codes of the characters are not changed with it: a caller that
    /// changes the character answers for the table's being well formed
    /// afterwards.
    pub fn char_of_code_mut(&mut self, code: &WubiCode) -> (r: &mut Option<char>)
        requires
            old(self).shaped(),
        ensures
            *r == old(self).char_at(code.spec_index()),
            final(self).shaped(),
            forall|ch: char| final(self).codes_of(ch) == old(self).codes_of(ch),
            forall|index: int|
                final(self).char_at(index) == if index == code.spec_index() {
                    *final(r)
                } else {
                    old(self).char_at(index)
                },
    {
        let index: u32 = code.index();
        chars_get_mut(&mut *self.code_to_char, index as usize)
    }

    /// The character that stands under an index below 26^4, if any.
    pub fn char_at_index(&self, index: usize) -> (r: Option<char>)
        requires
            self.shaped(),
            index < INDEX_UPPER_BOUND,
        ensures
            r == self.char_at(index as int),
    {
        *chars_get(&*self.code_to_char, index)
    }
}

impl Default for SimplifiedCodeTable {
    fn default() -> (table: SimplifiedCodeTable)
        ensures
            table.wf(),
            forall|index: int| table.char_at(index) is None,
            forall|ch: char| table.codes_of(ch) == Seq::<u32>::empty(),
    {
        SimplifiedCodeTable::new()
    }
}

} // verus!
