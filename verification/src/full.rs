use vstd::prelude::*;
use vstd::hash_map::StringHashMap;
use crate::code::{WubiCode, INDEX_UPPER_BOUND};
use crate::error::ParseError;

verus! {

/// A phrase with its code.
pub struct WubiEntry {
    pub phrase: String,
    pub wubi_code: WubiCode,
}

/// The texts of a list of phrases.
pub open spec fn texts(phrases: Seq<String>) -> Seq<Seq<char>> {
    Seq::new(phrases.len(), |j: int| phrases[j]@)
}

/// What putting a phrase in under a code does to the table. A phrase that the
/// table holds already gives `DuplicatePhrase`, and the table stays as it was;
/// else the phrase has the code, and stands behind the other phrases of the
/// code.
pub open spec fn insert_outcome(
    before: FullCodeTable,
    after: FullCodeTable,
    phrase: Seq<char>,
    code: WubiCode,
    r: Result<(), ParseError>,
) -> bool {
    if before.code_map().contains_key(phrase) {
        r == Err::<(), ParseError>(ParseError::DuplicatePhrase) && after == before
    } else {
        &&& r is Ok
        &&& after.code_map() == before.code_map().insert(phrase, code)
        &&& forall|index: int|
            after.phrases_at(index) == if index == code.spec_index() {
                before.phrases_at(index).push(phrase)
            } else {
                before.phrases_at(index)
            }
    }
}

/// A phrase that has been put in is held: putting it in again, under any code,
/// gives `DuplicatePhrase`.
pub proof fn lemma_phrase_is_held_once(
    start: FullCodeTable,
    first: FullCodeTable,
    second: FullCodeTable,
    phrase: Seq<char>,
    code: WubiCode,
    other: WubiCode,
    r: Result<(), ParseError>,
)
    requires
        insert_outcome(start, first, phrase, code, Ok::<(), ParseError>(())),
        insert_outcome(first, second, phrase, other, r),
    ensures
        r == Err::<(), ParseError>(ParseError::DuplicatePhrase),
        second == first,
{
    assert(first.code_map().contains_key(phrase));
}

/// The full codes: the phrases of each code in the order in which they were put
/// in, and the code of each phrase.
pub struct FullCodeTable {
    code_to_phrases: Vec<Vec<String>>,
    /// The place of each phrase's code in `codes`.
    phrase_to_code: StringHashMap<usize>,
    codes: Vec<WubiCode>,
}

impl FullCodeTable {
    /// There is a list of phrases for every index, and a code of its own for
    /// every phrase.
    pub closed spec fn shaped(&self) -> bool {
        &&& self.code_to_phrases@.len() == INDEX_UPPER_BOUND
        &&& forall|phrase: Seq<char>| #[trigger]
            self.phrase_to_code@.contains_key(phrase) ==> self.phrase_to_code@[phrase]
                < self.codes@.len()
        &&& forall|a: Seq<char>, b: Seq<char>|
            self.phrase_to_code@.contains_key(a) && self.phrase_to_code@.contains_key(b)
                && #[trigger] self.phrase_to_code@[a] == #[trigger] self.phrase_to_code@[b]
                ==> a == b
    }

    /// The phrases that stand under an index, first put in first.
    pub closed spec fn phrases_at(&self, index: int) -> Seq<Seq<char>> {
        if 0 <= index < self.code_to_phrases@.len() {
            texts(self.code_to_phrases@[index]@)
        } else {
            Seq::empty()
        }
    }

    /// The code of each phrase.
    pub closed spec fn code_map(&self) -> Map<Seq<char>, WubiCode> {
        Map::new(
            |phrase: Seq<char>| self.phrase_to_code@.contains_key(phrase),
            |phrase: Seq<char>| self.codes@[self.phrase_to_code@[phrase] as int],
        )
    }

    /// The two directions say the same: a phrase stands under an index exactly
    /// if its code has that index, and it stands there once.
    pub open spec fn wf(&self) -> bool {
        &&& self.shaped()
        &&& forall|index: int, j: int|
            0 <= j < self.phrases_at(index).len() ==> {
                &&& self.code_map().contains_key(#[trigger] self.phrases_at(index)[j])
                &&& self.code_map()[self.phrases_at(index)[j]].spec_index() == index
            }
        &&& forall|phrase: Seq<char>| #[trigger]
            self.code_map().contains_key(phrase) ==> self.code_map()[phrase].wf()
                && self.phrases_at(self.code_map()[phrase].spec_index()).contains(phrase)
        &&& forall|index: int| (#[trigger] self.phrases_at(index)).no_duplicates()
    }

    /// A table that holds nothing.
    pub fn new() -> (table: FullCodeTable)
        ensures
            table.wf(),
            table.code_map() == Map::<Seq<char>, WubiCode>::empty(),
            forall|index: int| table.phrases_at(index) == Seq::<Seq<char>>::empty(),
    {
        let mut code_to_phrases: Vec<Vec<String>> = Vec::new();
        let mut i: usize = 0;
        while i < INDEX_UPPER_BOUND
            invariant
                i <= INDEX_UPPER_BOUND,
                code_to_phrases@.len() == i,
                forall|j: int| 0 <= j < i ==> (#[trigger] code_to_phrases@[j])@.len() == 0,
            decreases INDEX_UPPER_BOUND - i,
        {
            code_to_phrases.push(Vec::new());
            i = i + 1;
        }
        let phrase_to_code = StringHashMap::new();
        let table = FullCodeTable { code_to_phrases, phrase_to_code, codes: Vec::new() };
        assert(table.code_map() =~= Map::<Seq<char>, WubiCode>::empty());
        assert forall|index: int| table.phrases_at(index) == Seq::<Seq<char>>::empty() by {
            assert(table.phrases_at(index) =~= Seq::<Seq<char>>::empty());
        }
        table
    }

    /// The code of a phrase, if the table holds the phrase.
    pub fn code(&self, phrase: &String) -> (r: Option<&WubiCode>)
        requires
            self.shaped(),
        ensures
            r is Some <==> self.code_map().contains_key(phrase@),
            r matches Some(code) ==> *code == self.code_map()[phrase@],
    {
        match self.phrase_to_code.get(phrase.as_str()) {
            Some(place) => Some(&self.codes[*place]),
            None => None,
        }
    }

    /// The code of a phrase, to be changed in place, if the table holds the
    /// phrase.
    ///
    /// The phrase is not moved with it: a caller that changes the code answers
    /// for the table's being well formed afterwards.
    pub fn code_mut(&mut self, phrase: &String) -> (r: Option<&mut WubiCode>)
        requires
            old(self).shaped(),
        ensures
            r is Some <==> old(self).code_map().contains_key(phrase@),
            final(self).shaped(),
            forall|index: int| final(self).phrases_at(index) == old(self).phrases_at(index),
            match r {
                Some(code) => *code == old(self).code_map()[phrase@] && final(self).code_map()
                    == old(self).code_map().insert(phrase@, *final(code)),
                None => final(self).code_map() == old(self).code_map(),
            },
    {
        let found: Option<usize> = match self.phrase_to_code.get(phrase.as_str()) {
            Some(place) => Some(*place),
            None => None,
        };
        match found {
            Some(place) => {
                let code = &mut self.codes[place];
                Some(code)
            },
            None => None,
        }
    }

    /// The phrases that stand under a code, first put in first.
    pub fn phrases(&self, code: &WubiCode) -> (r: &Vec<String>)
        requires
            self.shaped(),
        ensures
            texts(r@) == self.phrases_at(code.spec_index()),
    {
        let index: u32 = code.index();
        &self.code_to_phrases[index as usize]
    }

    /// The list of the phrases that stand under a code, to be changed in place.
    ///
    /// The codes of the phrases are not changed with it: a caller that changes
    /// the list answers for the table's being well formed afterwards.
    pub fn phrases_mut(&mut self, code: &WubiCode) -> (r: &mut Vec<String>)
        requires
            old(self).shaped(),
        ensures
            texts(r@) == old(self).phrases_at(code.spec_index()),
            final(self).shaped(),
            final(self).code_map() == old(self).code_map(),
            forall|index: int|
                final(self).phrases_at(index) == if index == code.spec_index() {
                    texts(final(r)@)
                } else {
                    old(self).phrases_at(index)
                },
    {
        let index: u32 = code.index();
        &mut self.code_to_phrases[index as usize]
    }

    /// The phrases that stand under an index below 26^4, first put in first.
    pub fn phrases_at_index(&self, index: usize) -> (r: &Vec<String>)
        requires
            self.shaped(),
            index < INDEX_UPPER_BOUND,
        ensures
            texts(r@) == self.phrases_at(index as int),
    {
        &self.code_to_phrases[index]
    }

    /// Puts a phrase in under its code, behind the phrases that the code has.
    ///
    /// A phrase that the table holds already gives `DuplicatePhrase`, and the
    /// table stays as it was.
    pub fn insert(&mut self, entry: WubiEntry) -> (r: Result<(), ParseError>)
        requires
            old(self).wf(),
        ensures
            final(self).wf(),
            insert_outcome(*old(self), *final(self), entry.phrase@, entry.wubi_code, r),
    {
        if self.phrase_to_code.contains_key(entry.phrase.as_str()) {
            return Err(ParseError::DuplicatePhrase);
        }
        let code: WubiCode = entry.wubi_code;
        let index: u32 = code.index();
        let ghost text = entry.phrase@;
        let place: usize = self.codes.len();
        self.codes.push(code);
        self.phrase_to_code.insert(entry.phrase.clone(), place);
        self.code_to_phrases[index as usize].push(entry.phrase);
        proof {
            assert(self.code_map() =~= old(self).code_map().insert(text, code));
            assert forall|i: int|
                self.phrases_at(i) == if i == index {
                    old(self).phrases_at(i).push(text)
                } else {
                    old(self).phrases_at(i)
                } by {
                if i == index {
                    assert(self.phrases_at(i) =~= old(self).phrases_at(i).push(text));
                } else {
                    assert(self.phrases_at(i) =~= old(self).phrases_at(i));
                }
            }
            assert forall|i: int, j: int| 0 <= j < self.phrases_at(i).len() implies {
                &&& self.code_map().contains_key(#[trigger] self.phrases_at(i)[j])
                &&& self.code_map()[self.phrases_at(i)[j]].spec_index() == i
            } by {
                if i == index && j == old(self).phrases_at(i).len() {
                } else {
                    let p = old(self).phrases_at(i)[j];
                    assert(old(self).code_map().contains_key(p));
                }
            }
            assert forall|phrase: Seq<char>| #[trigger]
                self.code_map().contains_key(phrase) implies self.code_map()[phrase].wf()
                && self.phrases_at(self.code_map()[phrase].spec_index()).contains(phrase) by {
                if phrase == text {
                    assert(code.wf());
                    assert(self.phrases_at(index as int)[old(self).phrases_at(
                        index as int,
                    ).len() as int] == text);
                } else {
                    assert(old(self).code_map().contains_key(phrase));
                    let at = old(self).code_map()[phrase].spec_index();
                    let j = choose|j: int|
                        0 <= j < old(self).phrases_at(at).len() && old(self).phrases_at(at)[j]
                            == phrase;
                    assert(self.phrases_at(at)[j] == phrase);
                }
            }
            assert forall|i: int| (#[trigger] self.phrases_at(i)).no_duplicates() by {
                assert(old(self).phrases_at(i).no_duplicates());
                if i == index {
                    assert forall|j: int| 0 <= j < old(self).phrases_at(i).len() implies old(
                        self,
                    ).phrases_at(i)[j] != text by {
                        assert(old(self).code_map().contains_key(old(self).phrases_at(i)[j]));
                    }
                }
            }
        }
        Ok(())
    }
}

impl Default for FullCodeTable {
    fn default() -> (table: FullCodeTable)
        ensures
            table.wf(),
            table.code_map() == Map::<Seq<char>, WubiCode>::empty(),
            forall|index: int| table.phrases_at(index) == Seq::<Seq<char>>::empty(),
    {
        FullCodeTable::new()
    }
}

} // verus!
