use vstd::prelude::*;
use vstd::string::*;
use crate::code::WubiCode;
use crate::error::ParseError;
use crate::full::{FullCodeTable, WubiEntry};
use crate::phrase::{get_code_for_phrase, phrase_index, used_positions};
use crate::record::{
    codepoint_line_outcome, parse_line_with_codepoint, parse_line_without_codepoint,
    plain_line_outcome,
};
use crate::simplified::SimplifiedCodeTable;
use crate::merge::distinct_phrases;
use crate::table::Table;
use crate::text::char_text;

verus! {

/// The full code of a character, if the table holds the character.
pub open spec fn char_code_in(codes: Map<Seq<char>, WubiCode>, ch: char) -> Option<WubiCode> {
    if codes.contains_key(seq![ch]) {
        Some(codes[seq![ch]])
    } else {
        None
    }
}

/// The index of the code of a phrase of two or more characters, spliced from
/// the full codes of its characters; `None` where one of the characters that
/// the code is made of has no full code.
pub open spec fn phrase_code_in(codes: Map<Seq<char>, WubiCode>, phrase: Seq<char>) -> Option<
    int,
> {
    let used = used_positions(phrase.len() as int);
    if forall|i: int| 0 <= i < used.len() ==> codes.contains_key(seq![phrase[#[trigger] used[i]]]) {
        Some(
            phrase_index(
                Seq::new(used.len(), |i: int| codes[seq![phrase[used[i]]]].spec_index()),
            ),
        )
    } else {
        None
    }
}

/// What loading a line of a character and its shortcut code does: the line is
/// read, and the character put under the code in the shortcut table.
pub open spec fn simplified_step(
    before: Table,
    line: Seq<char>,
    after: Table,
    r: Result<(), ParseError>,
) -> bool {
    exists|parsed: Result<WubiEntry, ParseError>|
        #![trigger plain_line_outcome(line, parsed)]
        plain_line_outcome(line, parsed) && match parsed {
            Err(e) => r == Err::<(), ParseError>(e) && after == before,
            Ok(entry) => after.full == before.full && crate::simplified::insert_outcome(
                before.simplified,
                after.simplified,
                entry.wubi_code.spec_index(),
                entry.phrase@[0],
                r,
            ),
        }
}

/// What loading a line of a code point, a character and its full code does:
/// the line is read, and the character put in under the code in the full
/// table.
pub open spec fn character_step(
    before: Table,
    line: Seq<char>,
    after: Table,
    r: Result<(), ParseError>,
) -> bool {
    exists|parsed: Result<WubiEntry, ParseError>|
        #![trigger codepoint_line_outcome(line, parsed)]
        codepoint_line_outcome(line, parsed) && match parsed {
            Err(e) => r == Err::<(), ParseError>(e) && after == before,
            Ok(entry) => after.simplified == before.simplified && crate::full::insert_outcome(
                before.full,
                after.full,
                entry.phrase@,
                entry.wubi_code,
                r,
            ),
        }
}

/// What loading a phrase does. A phrase of fewer than two characters gives
/// `Invalid`, and one with a character that has no full code
/// `MissingCharacterCode`; else the phrase is put in under the code spliced
/// from its characters' codes.
pub open spec fn phrase_step(
    before: Table,
    phrase: Seq<char>,
    after: Table,
    r: Result<(), ParseError>,
) -> bool {
    if phrase.len() < 2 {
        r == Err::<(), ParseError>(ParseError::Invalid) && after == before
    } else {
        match phrase_code_in(before.full.code_map(), phrase) {
            None => r == Err::<(), ParseError>(ParseError::MissingCharacterCode) && after
                == before,
            Some(index) => after.simplified == before.simplified && exists|code: WubiCode|
                #![trigger code.spec_index()]
                code.spec_index() == index && crate::full::insert_outcome(
                    before.full,
                    after.full,
                    phrase,
                    code,
                    r,
                ),
        }
    }
}

/// The three kinds of records that are loaded.
#[derive(Clone, Copy, Debug, PartialEq, Eq, Structural)]
pub enum RecordKind {
    /// A line of a character and its shortcut code.
    Simplified,
    /// A line of a code point, a character and its full code.
    Character,
    /// A phrase of two or more characters.
    Phrase,
}

/// What loading one record of a kind does.
pub open spec fn record_step(
    kind: RecordKind,
    before: Table,
    line: Seq<char>,
    after: Table,
    r: Result<(), ParseError>,
) -> bool {
    match kind {
        RecordKind::Simplified => simplified_step(before, line, after, r),
        RecordKind::Character => character_step(before, line, after, r),
        RecordKind::Phrase => phrase_step(before, line, after, r),
    }
}

/// Marks the tables and the answer that a list of records has led to.
pub open spec fn reached(mid: Table, prior: Result<(), ParseError>) -> bool {
    true
}

/// What loading a list of records does: they are loaded one after the other,
/// up to the first that fails, whose error is the answer.
pub open spec fn loaded(
    kind: RecordKind,
    before: Table,
    lines: Seq<Seq<char>>,
    after: Table,
    r: Result<(), ParseError>,
) -> bool
    decreases lines.len(),
{
    if lines.len() == 0 {
        after == before && r is Ok
    } else {
        exists|mid: Table, prior: Result<(), ParseError>|
            #![trigger reached(mid, prior)]
            reached(mid, prior) && loaded(kind, before, lines.drop_last(), mid, prior)
                && match prior {
                Err(_) => r == prior && after == mid,
                Ok(_) => record_step(kind, mid, lines.last(), after, r),
            }
    }
}

/// Once a record has failed, the records behind it change nothing.
pub proof fn lemma_error_stays(
    kind: RecordKind,
    before: Table,
    lines: Seq<Seq<char>>,
    k: int,
    after: Table,
    r: Result<(), ParseError>,
)
    requires
        0 <= k <= lines.len(),
        r is Err,
        loaded(kind, before, lines.take(k), after, r),
    ensures
        loaded(kind, before, lines, after, r),
    decreases lines.len() - k,
{
    if k < lines.len() {
        let next = lines.take(k + 1);
        assert(next.drop_last() =~= lines.take(k));
        assert(next.len() > 0);
        assert(reached(after, r) && loaded(kind, before, next.drop_last(), after, r));
        assert(loaded(kind, before, next, after, r));
        lemma_error_stays(kind, before, lines, k + 1, after, r);
    } else {
        assert(lines.take(k) =~= lines);
    }
}

/// The lines of a list of texts.
pub open spec fn lines_view(lines: Seq<String>) -> Seq<Seq<char>> {
    Seq::new(lines.len(), |k: int| lines[k]@)
}

/// The tables under construction: records are loaded into them, and the lookup
/// tables written from them.
pub struct WubiTable {
    pub table: Table,
}

impl WubiTable {
    /// Both tables are well formed.
    pub open spec fn wf(&self) -> bool {
        self.table.wf()
    }

    /// Two tables that hold nothing.
    pub fn new() -> (r: WubiTable)
        ensures
            r.wf(),
            forall|index: int| r.table.simplified.char_at(index) is None,
            forall|ch: char| r.table.simplified.codes_of(ch) == Seq::<u32>::empty(),
            r.table.full.code_map() == Map::<Seq<char>, WubiCode>::empty(),
            forall|index: int| r.table.full.phrases_at(index) == Seq::<Seq<char>>::empty(),
    {
        WubiTable { table: Table::new(SimplifiedCodeTable::new(), FullCodeTable::new()) }
    }

    /// Loads one line `<char>\\t<code>` into the shortcut table.
    pub fn add_simplified(&mut self, line: &str) -> (r: Result<(), ParseError>)
        requires
            old(self).wf(),
        ensures
            final(self).wf(),
            simplified_step(old(self).table, line@, final(self).table, r),
    {
        let parsed = parse_line_without_codepoint(line);
        let ghost seen = parsed;
        let r = match parsed {
            Err(e) => Err(e),
            Ok(entry) => {
                let ch: char = entry.phrase.as_str().get_char(0);
                self.table.simplified.insert(&entry.wubi_code, ch)
            },
        };
        assert(plain_line_outcome(line@, seen));
        r
    }

    /// Loads one line `U+<hex>\\t<char>\\t<code>` into the full table.
    pub fn add_character(&mut self, line: &str) -> (r: Result<(), ParseError>)
        requires
            old(self).wf(),
        ensures
            final(self).wf(),
            character_step(old(self).table, line@, final(self).table, r),
    {
        let parsed = parse_line_with_codepoint(line);
        let ghost seen = parsed;
        let r = match parsed {
            Err(e) => Err(e),
            Ok(entry) => self.table.full.insert(entry),
        };
        assert(codepoint_line_outcome(line@, seen));
        r
    }

    /// The code of a phrase of two or more characters, spliced from the full
    /// codes of its characters.
    pub fn phrase_code(&self, phrase: &str) -> (r: Result<WubiCode, ParseError>)
        requires
            self.wf(),
            phrase@.len() >= 2,
        ensures
            match phrase_code_in(self.table.full.code_map(), phrase@) {
                Some(index) => r matches Ok(code) && code.spec_index() == index,
                None => r == Err::<WubiCode, ParseError>(ParseError::MissingCharacterCode),
            },
    {
        let full = &self.table.full;
        let ghost codes = full.code_map();
        let lookup = |ch: char| -> (found: Option<WubiCode>)
            ensures
                found == char_code_in(full.code_map(), ch),
            {
                let key = char_text(ch);
                match full.code(&key) {
                    Some(code) => Some(*code),
                    None => None,
                }
            };
        let r = get_code_for_phrase(phrase, lookup);
        proof {
            let used = used_positions(phrase@.len() as int);
            match r {
                Ok(code) => {
                    let picked = choose|picked: Seq<WubiCode>|
                        {
                            &&& picked.len() == used.len()
                            &&& forall|i: int|
                                0 <= i < picked.len() ==> lookup.ensures(
                                    (phrase@[used[i]],),
                                    Some(#[trigger] picked[i]),
                                )
                            &&& code.spec_index() == phrase_index(crate::code::indices(picked))
                        };
                    assert forall|i: int| 0 <= i < used.len() implies codes.contains_key(
                        seq![phrase@[#[trigger] used[i]]],
                    ) && codes[seq![phrase@[used[i]]]] == picked[i] by {
                        assert(lookup.ensures((phrase@[used[i]],), Some(picked[i])));
                    }
                    assert(crate::code::indices(picked) =~= Seq::new(
                        used.len(),
                        |i: int| codes[seq![phrase@[used[i]]]].spec_index(),
                    ));
                },
                Err(_) => {
                    let i = choose|i: int|
                        0 <= i < used.len() && lookup.ensures((phrase@[#[trigger] used[i]],), None);
                    assert(!codes.contains_key(seq![phrase@[used[i]]]));
                },
            }
        }
        r
    }

    /// Loads one phrase into the full table, under the code spliced from its
    /// characters' codes.
    pub fn add_phrase(&mut self, phrase: String) -> (r: Result<(), ParseError>)
        requires
            old(self).wf(),
        ensures
            final(self).wf(),
            phrase_step(old(self).table, phrase@, final(self).table, r),
    {
        if phrase.as_str().unicode_len() < 2 {
            return Err(ParseError::Invalid);
        }
        match self.phrase_code(phrase.as_str()) {
            Err(e) => Err(e),
            Ok(code) => {
                let r = self.table.full.insert(WubiEntry { phrase, wubi_code: code });
                assert(code.spec_index() == phrase_code_in(
                    old(self).table.full.code_map(),
                    phrase@,
                ).unwrap());
                r
            },
        }
    }

    /// Loads a list of records of one kind, one after the other, and stops at
    /// the first that fails.
    pub fn load(&mut self, kind: RecordKind, lines: &Vec<String>) -> (r: Result<(), ParseError>)
        requires
            old(self).wf(),
        ensures
            final(self).wf(),
            loaded(kind, old(self).table, lines_view(lines@), final(self).table, r),
    {
        let ghost all = lines_view(lines@);
        let n: usize = lines.len();
        let mut i: usize = 0;
        assert(all.take(0) =~= Seq::empty());
        while i < n
            invariant
                n == lines@.len(),
                i <= n,
                all == lines_view(lines@),
                self.wf(),
                loaded(
                    kind,
                    old(self).table,
                    all.take(i as int),
                    self.table,
                    Ok::<(), ParseError>(()),
                ),
            decreases n - i,
        {
            let ghost mid = self.table;
            let r = match kind {
                RecordKind::Simplified => self.add_simplified(lines[i].as_str()),
                RecordKind::Character => self.add_character(lines[i].as_str()),
                RecordKind::Phrase => self.add_phrase(lines[i].clone()),
            };
            proof {
                assert(all.take(i + 1).drop_last() =~= all.take(i as int));
                assert(all.take(i + 1).last() == lines@[i as int]@);
                assert(record_step(kind, mid, all.take(i + 1).last(), self.table, r));
                assert(reached(mid, Ok::<(), ParseError>(())) && loaded(
                    kind,
                    old(self).table,
                    all.take(i + 1).drop_last(),
                    mid,
                    Ok::<(), ParseError>(()),
                ));
                assert(loaded(kind, old(self).table, all.take(i + 1), self.table, r));
            }
            if r.is_err() {
                proof {
                    lemma_error_stays(kind, old(self).table, all, i + 1, self.table, r);
                }
                return r;
            }
            i = i + 1;
        }
        assert(all.take(n as int) =~= all);
        Ok(())
    }

    /// Loads lines `U+<hex>\t<char>\t<code>` into the full table.
    pub fn build_with_codepoint(&mut self, lines: &Vec<String>) -> (r: Result<(), ParseError>)
        requires
            old(self).wf(),
        ensures
            final(self).wf(),
            loaded(
                RecordKind::Character,
                old(self).table,
                lines_view(lines@),
                final(self).table,
                r,
            ),
    {
        self.load(RecordKind::Character, lines)
    }

    /// Loads lines `<char>\t<code>` into the shortcut table.
    pub fn build_without_codepoint(&mut self, lines: &Vec<String>) -> (r: Result<(), ParseError>)
        requires
            old(self).wf(),
        ensures
            final(self).wf(),
            loaded(
                RecordKind::Simplified,
                old(self).table,
                lines_view(lines@),
                final(self).table,
                r,
            ),
    {
        self.load(RecordKind::Simplified, lines)
    }

    /// Loads phrases into the full table, each under the code spliced from its
    /// characters' codes.
    pub fn extend_phrases(&mut self, phrases: Vec<String>) -> (r: Result<(), ParseError>)
        requires
            old(self).wf(),
        ensures
            final(self).wf(),
            loaded(
                RecordKind::Phrase,
                old(self).table,
                lines_view(phrases@),
                final(self).table,
                r,
            ),
    {
        self.load(RecordKind::Phrase, &phrases)
    }

    /// Whether every phrase has one line in the reverse table: no phrase stands
    /// twice in the full table.
    pub fn unique_reverse_table(&self) -> (r: bool)
        requires
            self.table.full.shaped(),
        ensures
            r == distinct_phrases(self.table.full_entries(crate::code::INDEX_UPPER_BOUND as int)),
            self.table.full.wf() ==> r,
    {
        self.table.has_distinct_phrases()
    }

    /// The forward table as a text.
    pub fn write_table(&self) -> (r: String)
        requires
            self.wf(),
        ensures
            r@ == self.table.forward_text(crate::code::INDEX_UPPER_BOUND as int),
    {
        self.table.forward_table()
    }

    /// The mobile forward table as a text.
    pub fn write_ios_table(&self) -> (r: String)
        requires
            self.wf(),
        ensures
            r@ == self.table.mobile_text(crate::code::INDEX_UPPER_BOUND as int),
    {
        self.table.mobile_table()
    }

    /// The reverse table as a text.
    pub fn write_reverse_table(&self) -> (r: String)
        requires
            self.wf(),
        ensures
            r@ == self.table.reverse_table_text(),
    {
        self.table.reverse_table()
    }
}

} // verus!
