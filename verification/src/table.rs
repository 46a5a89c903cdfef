use vstd::prelude::*;
use vstd::string::*;
use crate::code::{index_bytes, index_letters, WubiCode, INDEX_UPPER_BOUND};
use crate::full::{texts, FullCodeTable};
use crate::simplified::SimplifiedCodeTable;
use crate::text::{bytes_text, char_text, push_bytes, push_char};

verus! {

/// Whether a phrase is the one character that the shortcut table has for the
/// same code.
pub open spec fn covered(phrase: Seq<char>, shortcut: Option<char>) -> bool {
    match shortcut {
        Some(ch) => phrase == seq![ch],
        None => false,
    }
}

/// The phrases of a code without the one that the shortcut covers, in order.
pub open spec fn uncovered(phrases: Seq<Seq<char>>, shortcut: Option<char>) -> Seq<Seq<char>>
    decreases phrases.len(),
{
    if phrases.len() == 0 {
        Seq::empty()
    } else if covered(phrases.last(), shortcut) {
        uncovered(phrases.drop_last(), shortcut)
    } else {
        uncovered(phrases.drop_last(), shortcut).push(phrases.last())
    }
}

/// The shortcut character as a text, if there is one.
pub open spec fn shortcut_text(shortcut: Option<char>) -> Seq<Seq<char>> {
    match shortcut {
        Some(ch) => seq![seq![ch]],
        None => Seq::empty(),
    }
}

/// The payloads, each with a blank before it.
pub open spec fn joined(payloads: Seq<Seq<char>>) -> Seq<char>
    decreases payloads.len(),
{
    if payloads.len() == 0 {
        Seq::empty()
    } else {
        joined(payloads.drop_last()) + seq![' '] + payloads.last()
    }
}

/// One line of the forward table: the code, its payloads, a line feed.
pub open spec fn forward_line(code: Seq<char>, payloads: Seq<Seq<char>>) -> Seq<char> {
    code + joined(payloads) + seq!['\n']
}

/// The lines of one code in the mobile table: `code=payload` for each payload.
pub open spec fn mobile_lines(code: Seq<char>, payloads: Seq<Seq<char>>) -> Seq<char>
    decreases payloads.len(),
{
    if payloads.len() == 0 {
        Seq::empty()
    } else {
        mobile_lines(code, payloads.drop_last()) + code + seq!['='] + payloads.last()
            + seq!['\n']
    }
}

/// A list of codes with one text each, as indices and texts.
pub open spec fn pairs_view(pairs: Seq<(WubiCode, String)>) -> Seq<(int, Seq<char>)> {
    Seq::new(pairs.len(), |k: int| (pairs[k].0.spec_index(), pairs[k].1@))
}

/// A list of codes with a list of texts each, as indices and texts.
pub open spec fn lists_view(lists: Seq<(WubiCode, Vec<String>)>) -> Seq<(int, Seq<Seq<char>>)> {
    Seq::new(lists.len(), |k: int| (lists[k].0.spec_index(), texts(lists[k].1@)))
}

/// The two tables from which the lookup tables are written.
pub struct Table {
    pub simplified: SimplifiedCodeTable,
    pub full: FullCodeTable,
}

impl Table {
    /// Both tables are well formed.
    pub open spec fn wf(&self) -> bool {
        self.simplified.wf() && self.full.wf()
    }

    /// The full phrases of an index that its shortcut does not cover.
    pub open spec fn filtered_phrases(&self, index: int) -> Seq<Seq<char>> {
        uncovered(self.full.phrases_at(index), self.simplified.char_at(index))
    }

    /// What the forward table shows for an index: the shortcut character
    /// first, then the full phrases that it does not cover.
    pub open spec fn payloads(&self, index: int) -> Seq<Seq<char>> {
        shortcut_text(self.simplified.char_at(index)) + self.filtered_phrases(index)
    }

    /// The shortcut characters of the indices below `n`, by rising index.
    pub open spec fn shortcut_stream(&self, n: int) -> Seq<(int, Seq<char>)>
        decreases n,
    {
        if n <= 0 {
            Seq::empty()
        } else {
            match self.simplified.char_at(n - 1) {
                Some(ch) => self.shortcut_stream(n - 1).push((n - 1, seq![ch])),
                None => self.shortcut_stream(n - 1),
            }
        }
    }

    /// The filtered phrases of the indices below `n` that have any left, by
    /// rising index.
    pub open spec fn phrase_stream(&self, n: int) -> Seq<(int, Seq<Seq<char>>)>
        decreases n,
    {
        if n <= 0 {
            Seq::empty()
        } else if self.filtered_phrases(n - 1).len() == 0 {
            self.phrase_stream(n - 1)
        } else {
            self.phrase_stream(n - 1).push((n - 1, self.filtered_phrases(n - 1)))
        }
    }

    /// The forward table for the indices below `n`: one line for each index
    /// that has a payload, by rising index.
    pub open spec fn forward_text(&self, n: int) -> Seq<char>
        decreases n,
    {
        if n <= 0 {
            Seq::empty()
        } else if self.payloads(n - 1).len() == 0 {
            self.forward_text(n - 1)
        } else {
            self.forward_text(n - 1) + forward_line(
                bytes_text(index_letters(n - 1)),
                self.payloads(n - 1),
            )
        }
    }

    /// The mobile table for the indices below `n`: one line for each payload,
    /// by rising index.
    pub open spec fn mobile_text(&self, n: int) -> Seq<char>
        decreases n,
    {
        if n <= 0 {
            Seq::empty()
        } else {
            self.mobile_text(n - 1) + mobile_lines(
                bytes_text(index_letters(n - 1)),
                self.payloads(n - 1),
            )
        }
    }

    /// The stream of shortcut characters holds each index below `n` that has a
    /// character, once and with its character, and the indices rise.
    pub proof fn lemma_shortcut_stream(&self, n: int)
        ensures
            forall|k: int|
                0 <= k < self.shortcut_stream(n).len() ==> {
                    let entry = #[trigger] self.shortcut_stream(n)[k];
                    0 <= entry.0 < n && self.simplified.char_at(entry.0) is Some && entry.1
                        == seq![self.simplified.char_at(entry.0).unwrap()]
                },
            forall|i: int, j: int|
                0 <= i < j < self.shortcut_stream(n).len() ==> (#[trigger] self.shortcut_stream(
                    n,
                )[i]).0 < (#[trigger] self.shortcut_stream(n)[j]).0,
            forall|index: int|
                0 <= index < n && (#[trigger] self.simplified.char_at(index)) is Some
                    ==> exists|k: int|
                    0 <= k < self.shortcut_stream(n).len() && (#[trigger] self.shortcut_stream(
                        n,
                    )[k]).0 == index,
        decreases n,
    {
        if n > 0 {
            self.lemma_shortcut_stream(n - 1);
            let rest = self.shortcut_stream(n - 1);
            let all = self.shortcut_stream(n);
            assert forall|k: int| 0 <= k < rest.len() implies all[k] == rest[k] by {}
            assert forall|index: int|
                0 <= index < n && (#[trigger] self.simplified.char_at(index)) is Some
                implies exists|k: int| 0 <= k < all.len() && (#[trigger] all[k]).0 == index by {
                if index < n - 1 {
                    let k = choose|k: int| 0 <= k < rest.len() && (#[trigger] rest[k]).0 == index;
                    assert(all[k].0 == index);
                } else {
                    assert(all[all.len() - 1].0 == index);
                }
            }
        }
    }

    /// The stream of filtered phrases holds each index below `n` that has a
    /// phrase left, once and with its filtered phrases, and the indices rise.
    pub proof fn lemma_phrase_stream(&self, n: int)
        ensures
            forall|k: int|
                0 <= k < self.phrase_stream(n).len() ==> {
                    let entry = #[trigger] self.phrase_stream(n)[k];
                    0 <= entry.0 < n && entry.1.len() > 0 && entry.1 == self.filtered_phrases(
                        entry.0,
                    )
                },
            forall|i: int, j: int|
                0 <= i < j < self.phrase_stream(n).len() ==> (#[trigger] self.phrase_stream(
                    n,
                )[i]).0 < (#[trigger] self.phrase_stream(n)[j]).0,
            forall|index: int|
                0 <= index < n && (#[trigger] self.filtered_phrases(index)).len() > 0
                    ==> exists|k: int|
                    0 <= k < self.phrase_stream(n).len() && (#[trigger] self.phrase_stream(
                        n,
                    )[k]).0 == index,
        decreases n,
    {
        if n > 0 {
            self.lemma_phrase_stream(n - 1);
            let rest = self.phrase_stream(n - 1);
            let all = self.phrase_stream(n);
            assert forall|k: int| 0 <= k < rest.len() implies all[k] == rest[k] by {}
            assert forall|index: int|
                0 <= index < n && (#[trigger] self.filtered_phrases(index)).len() > 0
                implies exists|k: int| 0 <= k < all.len() && (#[trigger] all[k]).0 == index by {
                if index < n - 1 {
                    let k = choose|k: int| 0 <= k < rest.len() && (#[trigger] rest[k]).0 == index;
                    assert(all[k].0 == index);
                } else {
                    assert(all[all.len() - 1].0 == index);
                }
            }
        }
    }

    /// Puts the two tables together.
    pub fn new(simplified: SimplifiedCodeTable, full: FullCodeTable) -> (table: Table)
        ensures
            table.simplified == simplified,
            table.full == full,
    {
        Table { simplified, full }
    }

    /// The full phrases of an index without the one that its shortcut covers.
    pub fn filtered_at(&self, index: usize) -> (r: Vec<String>)
        requires
            self.wf(),
            index < INDEX_UPPER_BOUND,
        ensures
            texts(r@) == self.filtered_phrases(index as int),
    {
        let shortcut: Option<char> = self.simplified.char_at_index(index);
        let phrases = self.full.phrases_at_index(index);
        let mut kept: Vec<String> = Vec::new();
        let n: usize = phrases.len();
        let mut j: usize = 0;
        assert(texts(phrases@).take(0) =~= Seq::empty());
        while j < n
            invariant
                n == phrases@.len(),
                j <= n,
                texts(kept@) == uncovered(texts(phrases@).take(j as int), shortcut),
            decreases n - j,
        {
            let phrase = &phrases[j];
            let is_covered: bool = match shortcut {
                Some(ch) => {
                    let one = char_text(ch);
                    *phrase == one
                },
                None => false,
            };
            proof {
                let next = texts(phrases@).take(j + 1);
                assert(next.drop_last() =~= texts(phrases@).take(j as int));
                assert(next.last() == phrase@);
            }
            if !is_covered {
                let ghost before = kept@;
                kept.push(phrase.clone());
                assert(texts(kept@) =~= texts(before).push(phrase@));
            }
            j = j + 1;
        }
        assert(texts(phrases@).take(n as int) =~= texts(phrases@));
        kept
    }

    /// What the forward table shows for an index: the shortcut character
    /// first, then the full phrases that it does not cover.
    pub fn payloads_at(&self, index: usize) -> (r: Vec<String>)
        requires
            self.wf(),
            index < INDEX_UPPER_BOUND,
        ensures
            texts(r@) == self.payloads(index as int),
    {
        let mut out: Vec<String> = Vec::new();
        match self.simplified.char_at_index(index) {
            Some(ch) => {
                out.push(char_text(ch));
            },
            None => {},
        }
        let ghost head = out@;
        assert(texts(head) =~= shortcut_text(self.simplified.char_at(index as int)));
        let mut kept = self.filtered_at(index);
        let ghost tail = kept@;
        out.append(&mut kept);
        assert(texts(out@) =~= texts(head) + texts(tail));
        out
    }

    /// The shortcut table by rising code: each code that has a character, with
    /// the character as a text.
    pub fn reverse_simplified_table(&self) -> (r: Vec<(WubiCode, String)>)
        requires
            self.wf(),
        ensures
            pairs_view(r@) == self.shortcut_stream(INDEX_UPPER_BOUND as int),
    {
        let mut out: Vec<(WubiCode, String)> = Vec::new();
        let mut i: usize = 0;
        assert(pairs_view(out@) =~= self.shortcut_stream(0));
        while i < INDEX_UPPER_BOUND
            invariant
                self.wf(),
                i <= INDEX_UPPER_BOUND,
                pairs_view(out@) == self.shortcut_stream(i as int),
            decreases INDEX_UPPER_BOUND - i,
        {
            match self.simplified.char_at_index(i) {
                Some(ch) => {
                    let ghost before = out@;
                    let code = WubiCode::from_index(i as u32).unwrap();
                    let text = char_text(ch);
                    out.push((code, text));
                    assert(pairs_view(out@) =~= pairs_view(before).push((i as int, seq![ch])));
                },
                None => {},
            }
            i = i + 1;
        }
        out
    }

    /// The full table by rising code: each code that has a phrase which its
    /// shortcut does not cover, with those phrases.
    pub fn reverse_filtered_full_table(&self) -> (r: Vec<(WubiCode, Vec<String>)>)
        requires
            self.wf(),
        ensures
            lists_view(r@) == self.phrase_stream(INDEX_UPPER_BOUND as int),
    {
        let mut out: Vec<(WubiCode, Vec<String>)> = Vec::new();
        let mut i: usize = 0;
        assert(lists_view(out@) =~= self.phrase_stream(0));
        while i < INDEX_UPPER_BOUND
            invariant
                self.wf(),
                i <= INDEX_UPPER_BOUND,
                lists_view(out@) == self.phrase_stream(i as int),
            decreases INDEX_UPPER_BOUND - i,
        {
            let kept = self.filtered_at(i);
            if kept.len() > 0 {
                let ghost before = out@;
                let ghost list = texts(kept@);
                proof {
                    lemma_uncovered_is_held(
                        self.full.phrases_at(i as int),
                        self.simplified.char_at(i as int),
                        0,
                    );
                    let p = list[0];
                    let j = choose|j: int|
                        0 <= j < self.full.phrases_at(i as int).len() && self.full.phrases_at(
                            i as int,
                        )[j] == p;
                    assert(self.full.code_map().contains_key(
                        self.full.phrases_at(i as int)[j],
                    ));
                    assert(self.full.code_map()[p].wf());
                }
                let code = WubiCode::from_index(i as u32).unwrap();
                out.push((code, kept));
                assert(lists_view(out@) =~= lists_view(before).push((i as int, list)));
            }
            i = i + 1;
        }
        out
    }

    /// The forward table: for each code that has a shortcut character or an
    /// uncovered phrase one line, by rising code, with the code, the
    /// character, and the phrases.
    pub fn forward_table(&self) -> (r: String)
        requires
            self.wf(),
        ensures
            r@ == self.forward_text(INDEX_UPPER_BOUND as int),
    {
        let mut out = String::new();
        let mut i: usize = 0;
        while i < INDEX_UPPER_BOUND
            invariant
                self.wf(),
                i <= INDEX_UPPER_BOUND,
                out@ == self.forward_text(i as int),
            decreases INDEX_UPPER_BOUND - i,
        {
            let payloads = self.payloads_at(i);
            let n: usize = payloads.len();
            if n > 0 {
                let ghost start = out@;
                let letters = index_bytes(i as u32);
                let ghost code = bytes_text(letters@);
                push_bytes(&mut out, letters.as_slice());
                let mut j: usize = 0;
                assert(texts(payloads@).take(0) =~= Seq::empty());
                while j < n
                    invariant
                        n == payloads@.len(),
                        j <= n,
                        out@ == start + code + joined(texts(payloads@).take(j as int)),
                    decreases n - j,
                {
                    proof {
                        let next = texts(payloads@).take(j + 1);
                        assert(next.drop_last() =~= texts(payloads@).take(j as int));
                        assert(next.last() == payloads@[j as int]@);
                    }
                    push_char(&mut out, ' ');
                    out.append(payloads[j].as_str());
                    assert(out@ =~= start + code + joined(texts(payloads@).take(j + 1)));
                    j = j + 1;
                }
                assert(texts(payloads@).take(n as int) =~= texts(payloads@));
                push_char(&mut out, '\n');
                assert(out@ =~= start + forward_line(code, texts(payloads@)));
            }
            i = i + 1;
        }
        out
    }

    /// The mobile table: for each code, by rising code, one line `code=payload`
    /// for its shortcut character and for each uncovered phrase.
    pub fn mobile_table(&self) -> (r: String)
        requires
            self.wf(),
        ensures
            r@ == self.mobile_text(INDEX_UPPER_BOUND as int),
    {
        let mut out = String::new();
        let mut i: usize = 0;
        while i < INDEX_UPPER_BOUND
            invariant
                self.wf(),
                i <= INDEX_UPPER_BOUND,
                out@ == self.mobile_text(i as int),
            decreases INDEX_UPPER_BOUND - i,
        {
            let payloads = self.payloads_at(i);
            let n: usize = payloads.len();
            let ghost start = out@;
            let letters = index_bytes(i as u32);
            let ghost code = bytes_text(letters@);
            let mut j: usize = 0;
            assert(texts(payloads@).take(0) =~= Seq::empty());
            assert(out@ =~= start + mobile_lines(code, texts(payloads@).take(0)));
            while j < n
                invariant
                    n == payloads@.len(),
                    j <= n,
                    code == bytes_text(letters@),
                    out@ == start + mobile_lines(code, texts(payloads@).take(j as int)),
                decreases n - j,
            {
                proof {
                    let next = texts(payloads@).take(j + 1);
                    assert(next.drop_last() =~= texts(payloads@).take(j as int));
                    assert(next.last() == payloads@[j as int]@);
                }
                push_bytes(&mut out, letters.as_slice());
                push_char(&mut out, '=');
                out.append(payloads[j].as_str());
                push_char(&mut out, '\n');
                assert(out@ =~= start + mobile_lines(code, texts(payloads@).take(j + 1)));
                j = j + 1;
            }
            assert(texts(payloads@).take(n as int) =~= texts(payloads@));
            i = i + 1;
        }
        out
    }
}

/// Where a code has no shortcut character, the filter leaves every phrase.
pub proof fn lemma_uncovered_without_shortcut(phrases: Seq<Seq<char>>)
    ensures
        uncovered(phrases, None) == phrases,
    decreases phrases.len(),
{
    if phrases.len() > 0 {
        lemma_uncovered_without_shortcut(phrases.drop_last());
        assert(phrases.drop_last().push(phrases.last()) =~= phrases);
    } else {
        assert(phrases =~= Seq::empty());
    }
}

/// The filter leaves the phrases that are not the shortcut character alone, in
/// their order.
pub proof fn lemma_uncovered_is_filter(phrases: Seq<Seq<char>>, shortcut: Option<char>)
    ensures
        uncovered(phrases, shortcut) == phrases.filter(
            |phrase: Seq<char>| !covered(phrase, shortcut),
        ),
    decreases phrases.len(),
{
    let keep = |phrase: Seq<char>| !covered(phrase, shortcut);
    if phrases.len() > 0 {
        lemma_uncovered_is_filter(phrases.drop_last(), shortcut);
        assert(phrases.drop_last().push(phrases.last()) =~= phrases);
        phrases.drop_last().lemma_filter_push(phrases.last(), keep);
    } else {
        phrases.lemma_filter_len(keep);
        assert(phrases.filter(keep) =~= Seq::empty());
    }
}

/// Every phrase that the filter leaves is one of the phrases it was given.
pub proof fn lemma_uncovered_is_held(phrases: Seq<Seq<char>>, shortcut: Option<char>, k: int)
    requires
        0 <= k < uncovered(phrases, shortcut).len(),
    ensures
        phrases.contains(uncovered(phrases, shortcut)[k]),
    decreases phrases.len(),
{
    if phrases.len() > 0 {
        let rest = uncovered(phrases.drop_last(), shortcut);
        if k < rest.len() {
            lemma_uncovered_is_held(phrases.drop_last(), shortcut, k);
            let j = choose|j: int|
                0 <= j < phrases.drop_last().len() && phrases.drop_last()[j] == rest[k];
            assert(phrases[j] == rest[k]);
        } else {
            assert(phrases[phrases.len() - 1] == phrases.last());
        }
    }
}

} // verus!
