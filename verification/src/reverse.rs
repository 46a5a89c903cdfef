use vstd::prelude::*;
use vstd::string::*;
use crate::code::{indices, WubiCode, INDEX_UPPER_BOUND};
use crate::merge::{
    coded_view, distinct_phrases, entries_at, entry_records, keys_rise,
    lemma_distinct_phrases_reordered, lemma_entry_keys_rise, lemma_merged_keys_rise,
    lemma_neighbours_decide, merge_records, merged, records_view, reverse_lines, stored_indices,
    write_records,
};
use crate::simplified::{slot_char, CHAR_COUNT};
use crate::table::Table;
use crate::text::{
    char_text, entries_view, lemma_rising_order, rising_order, sort_entries, sorted_entries,
    text_lt,
};

verus! {

impl Table {
    /// The characters that have a shortcut code among the first `n` that the
    /// table accepts, by rising character, each with its codes.
    pub open spec fn character_stream(&self, n: int) -> Seq<(Seq<char>, Seq<u32>)>
        decreases n,
    {
        if n <= 0 {
            Seq::empty()
        } else if self.simplified.codes_of(slot_char(n - 1)).len() == 0 {
            self.character_stream(n - 1)
        } else {
            self.character_stream(n - 1).push(
                (seq![slot_char(n - 1)], self.simplified.codes_of(slot_char(n - 1))),
            )
        }
    }

    /// The phrases of the full table under the indices below `n`, by rising
    /// index, each with its index.
    pub open spec fn full_entries(&self, n: int) -> Seq<(Seq<char>, u32)>
        decreases n,
    {
        if n <= 0 {
            Seq::empty()
        } else {
            self.full_entries(n - 1) + entries_at(self.full.phrases_at(n - 1), n - 1)
        }
    }

    /// Whether the shortcut table shows an entry already: its phrase is one
    /// character, and its code is the last of the character's shortcut codes.
    pub open spec fn shown_by_shortcut(&self, entry: (Seq<char>, u32)) -> bool {
        &&& entry.0.len() == 1
        &&& self.simplified.codes_of(entry.0[0]).len() > 0
        &&& self.simplified.codes_of(entry.0[0]).last() == entry.1
    }

    /// The entries that the shortcut table does not show already, in order.
    pub open spec fn unshown(&self, entries: Seq<(Seq<char>, u32)>) -> Seq<(Seq<char>, u32)>
        decreases entries.len(),
    {
        if entries.len() == 0 {
            Seq::empty()
        } else if self.shown_by_shortcut(entries.last()) {
            self.unshown(entries.drop_last())
        } else {
            self.unshown(entries.drop_last()).push(entries.last())
        }
    }

    /// The reverse table that comes of the full table's entries in a given
    /// order: its lines are the characters with their shortcut codes, merged
    /// with the entries by key.
    pub open spec fn reverse_text(&self, entries: Seq<(Seq<char>, u32)>) -> Seq<char> {
        reverse_lines(merged(self.character_stream(CHAR_COUNT as int), entry_records(entries)))
    }

    /// The reverse table: the one that comes of the full table's entries in
    /// rising order.
    pub open spec fn reverse_table_text(&self) -> Seq<char> {
        self.reverse_text(rising_order(self.full_entries(INDEX_UPPER_BOUND as int)))
    }

    /// The keys of the characters with their shortcut codes rise, and each is
    /// one of the first `n` characters that the table accepts.
    pub proof fn lemma_character_keys_rise(&self, n: int)
        requires
            0 <= n <= CHAR_COUNT,
        ensures
            keys_rise(self.character_stream(n)),
            forall|k: int|
                0 <= k < self.character_stream(n).len() ==> exists|slot: int|
                    0 <= slot < n && (#[trigger] self.character_stream(n)[k]).0
                        == seq![slot_char(slot)],
        decreases n,
    {
        if n > 0 {
            self.lemma_character_keys_rise(n - 1);
            let rest = self.character_stream(n - 1);
            let all = self.character_stream(n);
            let key = seq![slot_char(n - 1)];
            assert forall|k: int| 0 <= k < all.len() implies exists|slot: int|
                0 <= slot < n && (#[trigger] all[k]).0 == seq![slot_char(slot)] by {
                if k < rest.len() {
                    let slot = choose|slot: int|
                        0 <= slot < n - 1 && rest[k].0 == seq![slot_char(slot)];
                    assert(0 <= slot < n && all[k].0 == seq![slot_char(slot)]);
                } else {
                    assert(0 <= n - 1 < n && all[k].0 == seq![slot_char(n - 1)]);
                }
            }
            assert forall|i: int, j: int| 0 <= i < j < all.len() implies text_lt(
                #[trigger] all[i].0,
                #[trigger] all[j].0,
            ) by {
                if j < rest.len() {
                    assert(all[i] == rest[i] && all[j] == rest[j]);
                } else {
                    let slot = choose|slot: int|
                        0 <= slot < n - 1 && rest[i].0 == seq![slot_char(slot)];
                    assert(all[j].0 == key);
                    assert(slot_char(slot) as u32 == slot + 0x2eb3);
                    assert(slot_char(n - 1) as u32 == n - 1 + 0x2eb3);
                    assert(text_lt(seq![slot_char(slot)], key));
                }
            }
        }
    }

    /// The keys of the reverse table's lines rise, where the entries are in
    /// rising order and have distinct phrases.
    pub proof fn lemma_reverse_keys_rise(&self, entries: Seq<(Seq<char>, u32)>)
        requires
            sorted_entries(entries),
            distinct_phrases(entries),
        ensures
            keys_rise(merged(self.character_stream(CHAR_COUNT as int), entry_records(entries))),
    {
        self.lemma_character_keys_rise(CHAR_COUNT as int);
        lemma_entry_keys_rise(entries);
        lemma_merged_keys_rise(self.character_stream(CHAR_COUNT as int), entry_records(entries));
    }

    /// In a well-formed table no phrase stands twice, and each entry is a
    /// phrase of the list of its index.
    pub proof fn lemma_full_entries_distinct(&self, n: int)
        requires
            self.full.wf(),
            0 <= n <= INDEX_UPPER_BOUND,
        ensures
            distinct_phrases(self.full_entries(n)),
            forall|k: int|
                0 <= k < self.full_entries(n).len() ==> 0 <= (#[trigger] self.full_entries(
                    n,
                )[k]).1 < n && self.full.phrases_at(self.full_entries(n)[k].1 as int).contains(
                    self.full_entries(n)[k].0,
                ),
        decreases n,
    {
        if n > 0 {
            self.lemma_full_entries_distinct(n - 1);
            let rest = self.full_entries(n - 1);
            let here = self.full.phrases_at(n - 1);
            let all = self.full_entries(n);
            assert forall|k: int| 0 <= k < all.len() implies 0 <= (#[trigger] all[k]).1 < n
                && self.full.phrases_at(all[k].1 as int).contains(all[k].0) by {
                if k >= rest.len() {
                    assert(all[k] == (here[k - rest.len()], (n - 1) as u32));
                } else {
                    assert(all[k] == rest[k]);
                }
            }
            assert forall|i: int, j: int| 0 <= i < j < all.len() implies (#[trigger] all[i]).0
                != (#[trigger] all[j]).0 by {
                if j < rest.len() {
                    assert(all[i] == rest[i] && all[j] == rest[j]);
                } else {
                    assert(all[j] == (here[j - rest.len()], (n - 1) as u32));
                    assert(self.full.code_map().contains_key(here[j - rest.len()]));
                    if i < rest.len() {
                        assert(all[i] == rest[i]);
                        let at = rest[i].1 as int;
                        let held = self.full.phrases_at(at);
                        let x = choose|x: int| 0 <= x < held.len() && held[x] == rest[i].0;
                        assert(self.full.code_map().contains_key(held[x]));
                        assert(self.full.code_map()[held[x]].spec_index() == at);
                    } else {
                        assert(all[i] == (here[i - rest.len()], (n - 1) as u32));
                        assert(here.no_duplicates());
                    }
                }
            }
        }
    }

    /// The keys of the reverse table's lines rise in a well-formed table, where
    /// the lines are those of the entries in a rising order.
    pub proof fn lemma_reverse_table_rises(&self, entries: Seq<(Seq<char>, u32)>)
        requires
            self.full.wf(),
            sorted_entries(entries),
            entries.to_multiset() == self.full_entries(INDEX_UPPER_BOUND as int).to_multiset(),
        ensures
            entries == rising_order(self.full_entries(INDEX_UPPER_BOUND as int)),
            keys_rise(merged(self.character_stream(CHAR_COUNT as int), entry_records(entries))),
    {
        self.lemma_full_entries_distinct(INDEX_UPPER_BOUND as int);
        lemma_distinct_phrases_reordered(self.full_entries(INDEX_UPPER_BOUND as int), entries);
        self.lemma_reverse_keys_rise(entries);
        lemma_rising_order(self.full_entries(INDEX_UPPER_BOUND as int), entries);
    }

    /// Whether no phrase stands twice in the full table, which is so in every
    /// well-formed table.
    pub fn has_distinct_phrases(&self) -> (r: bool)
        requires
            self.full.shaped(),
        ensures
            r == distinct_phrases(self.full_entries(INDEX_UPPER_BOUND as int)),
            self.full.wf() ==> r,
    {
        let ghost all = self.full_entries(INDEX_UPPER_BOUND as int);
        let mut entries = self.full_table();
        sort_entries(&mut entries);
        let ghost sorted = entries_view(entries@);
        let n: usize = entries.len();
        let mut k: usize = 1;
        while k < n
            invariant
                n == entries@.len(),
                1 <= k,
                all == self.full_entries(INDEX_UPPER_BOUND as int),
                sorted == entries_view(entries@),
                sorted_entries(sorted),
                sorted.to_multiset() == all.to_multiset(),
                forall|i: int| 0 <= i < k - 1 ==> (#[trigger] sorted[i]).0 != sorted[i + 1].0,
            decreases n - k,
        {
            if entries[k - 1].0 == entries[k].0 {
                assert(sorted[k - 1].0 == sorted[k as int].0);
                assert(!distinct_phrases(sorted));
                proof {
                    if distinct_phrases(all) {
                        lemma_distinct_phrases_reordered(all, sorted);
                    }
                    if self.full.wf() {
                        self.lemma_full_entries_distinct(INDEX_UPPER_BOUND as int);
                    }
                }
                return false;
            }
            k = k + 1;
        }
        proof {
            lemma_neighbours_decide(sorted);
            lemma_distinct_phrases_reordered(sorted, all);
        }
        true
    }

    /// The characters that have a shortcut code, by rising character, each as a
    /// text with the indices of its codes, first put in first.
    pub fn simplified_records(&self) -> (r: Vec<(String, Vec<u32>)>)
        requires
            self.wf(),
        ensures
            records_view(r@) == self.character_stream(CHAR_COUNT as int),
    {
        let mut out: Vec<(String, Vec<u32>)> = Vec::new();
        let mut slot: usize = 0;
        assert(records_view(out@) =~= self.character_stream(0));
        while slot < CHAR_COUNT
            invariant
                self.wf(),
                slot <= CHAR_COUNT,
                records_view(out@) == self.character_stream(slot as int),
            decreases CHAR_COUNT - slot,
        {
            match self.simplified.slot_record(slot) {
                Some(entry) => {
                    let ghost before = records_view(out@);
                    let ghost codes = entry.1@;
                    let key = char_text(entry.0);
                    out.push((key, entry.1));
                    assert(records_view(out@) =~= before.push(
                        (seq![slot_char(slot as int)], codes),
                    ));
                },
                None => {},
            }
            slot = slot + 1;
        }
        out
    }

    /// The phrases of the full table, by rising code and in the order in which
    /// they were put in, each with the index of its code.
    pub fn full_table(&self) -> (r: Vec<(String, u32)>)
        requires
            self.full.shaped(),
        ensures
            entries_view(r@) == self.full_entries(INDEX_UPPER_BOUND as int),
    {
        let mut out: Vec<(String, u32)> = Vec::new();
        let mut i: usize = 0;
        assert(entries_view(out@) =~= self.full_entries(0));
        while i < INDEX_UPPER_BOUND
            invariant
                self.full.shaped(),
                i <= INDEX_UPPER_BOUND,
                entries_view(out@) == self.full_entries(i as int),
            decreases INDEX_UPPER_BOUND - i,
        {
            let phrases = self.full.phrases_at_index(i);
            let ghost start = entries_view(out@);
            let ghost here = entries_at(self.full.phrases_at(i as int), i as int);
            let n: usize = phrases.len();
            let mut j: usize = 0;
            assert(entries_view(out@) =~= start + here.take(0));
            while j < n
                invariant
                    i < INDEX_UPPER_BOUND,
                    n == phrases@.len(),
                    j <= n,
                    here == entries_at(crate::full::texts(phrases@), i as int),
                    entries_view(out@) == start + here.take(j as int),
                decreases n - j,
            {
                let ghost before = entries_view(out@);
                out.push((phrases[j].clone(), i as u32));
                assert(here[j as int] == (phrases@[j as int]@, i as u32));
                assert(entries_view(out@) =~= before.push(here[j as int]));
                assert(start + here.take(j + 1) =~= (start + here.take(j as int)).push(
                    here[j as int],
                ));
                j = j + 1;
            }
            assert(here.take(n as int) =~= here);
            i = i + 1;
        }
        out
    }

    /// The characters that have a shortcut code, by rising character, each
    /// with its codes, first put in first.
    pub fn simplified_table(&self) -> (r: Vec<(char, Vec<WubiCode>)>)
        requires
            self.wf(),
        ensures
            coded_view(r@) == self.character_stream(CHAR_COUNT as int),
    {
        let mut out: Vec<(char, Vec<WubiCode>)> = Vec::new();
        let mut slot: usize = 0;
        assert(coded_view(out@) =~= self.character_stream(0));
        while slot < CHAR_COUNT
            invariant
                self.wf(),
                slot <= CHAR_COUNT,
                coded_view(out@) == self.character_stream(slot as int),
            decreases CHAR_COUNT - slot,
        {
            match self.simplified.slot_entry(slot) {
                Some(entry) => {
                    let ghost before = coded_view(out@);
                    let ghost ch = slot_char(slot as int);
                    let ghost codes = self.simplified.codes_of(ch);
                    assert(stored_indices(entry.1@) =~= codes) by {
                        assert(indices(entry.1@).len() == codes.len());
                        assert forall|k: int| 0 <= k < codes.len() implies stored_indices(
                            entry.1@,
                        )[k] == codes[k] by {
                            assert(indices(entry.1@)[k] == codes.map_values(
                                |c: u32| c as int,
                            )[k]);
                        }
                    }
                    out.push(entry);
                    assert(coded_view(out@) =~= before.push((seq![ch], codes)));
                },
                None => {},
            }
            slot = slot + 1;
        }
        out
    }

    /// The entries of the full table that the shortcut table does not show
    /// already, by rising code and in the order in which they were put in.
    pub fn filtered_full_table(&self) -> (r: Vec<(String, u32)>)
        requires
            self.wf(),
        ensures
            entries_view(r@) == self.unshown(self.full_entries(INDEX_UPPER_BOUND as int)),
    {
        let all = self.full_table();
        let ghost entries = entries_view(all@);
        let mut out: Vec<(String, u32)> = Vec::new();
        let n: usize = all.len();
        let mut k: usize = 0;
        assert(entries.take(0) =~= Seq::empty());
        assert(entries_view(out@) =~= self.unshown(entries.take(0)));
        while k < n
            invariant
                self.wf(),
                n == all@.len(),
                k <= n,
                entries == entries_view(all@),
                entries_view(out@) == self.unshown(entries.take(k as int)),
            decreases n - k,
        {
            let phrase = &all[k].0;
            let index: u32 = all[k].1;
            proof {
                assert(entries.take(k + 1).drop_last() =~= entries.take(k as int));
                assert(entries.take(k + 1).last() == (phrase@, index));
            }
            let mut shown: bool = false;
            if phrase.as_str().unicode_len() == 1 {
                let ch: char = phrase.as_str().get_char(0);
                match self.simplified.code_of_char(ch) {
                    Some(codes) => {
                        let count: usize = codes.len();
                        proof {
                            let held = self.simplified.codes_of(ch);
                            assert(indices(codes@).len() == held.map_values(
                                |c: u32| c as int,
                            ).len());
                            if count > 0 {
                                assert(indices(codes@)[count - 1] == held.map_values(
                                    |c: u32| c as int,
                                )[count - 1]);
                            }
                        }
                        if count > 0 && codes[count - 1].index() == index {
                            shown = true;
                        }
                    },
                    None => {
                        proof {
                            self.simplified.lemma_codes_in_range(ch);
                        }
                    },
                }
            }
            assert(shown == self.shown_by_shortcut((phrase@, index)));
            if !shown {
                let ghost before = entries_view(out@);
                out.push((phrase.clone(), index));
                assert(entries_view(out@) =~= before.push((phrase@, index)));
            }
            k = k + 1;
        }
        assert(entries.take(n as int) =~= entries);
        out
    }

    /// The reverse table that comes of the given entries: one line for each
    /// character that has a shortcut code and for each entry, by rising key; a
    /// character that is an entry's phrase too has one line, its shortcut codes
    /// before the entry's code.
    pub fn reverse_table_from(&self, entries: &Vec<(String, u32)>) -> (r: String)
        requires
            self.wf(),
        ensures
            r@ == self.reverse_text(entries_view(entries@)),
    {
        let characters = self.simplified_records();
        let mut records: Vec<(String, Vec<u32>)> = Vec::new();
        let n: usize = entries.len();
        let mut k: usize = 0;
        assert(records_view(records@) =~= entry_records(entries_view(entries@)).take(0));
        while k < n
            invariant
                n == entries@.len(),
                k <= n,
                records_view(records@) == entry_records(entries_view(entries@)).take(k as int),
            decreases n - k,
        {
            let mut codes: Vec<u32> = Vec::new();
            codes.push(entries[k].1);
            assert(codes@ =~= seq![entries@[k as int].1]);
            let ghost before = records_view(records@);
            let ghost all = entry_records(entries_view(entries@));
            records.push((entries[k].0.clone(), codes));
            assert(all[k as int] == (entries@[k as int].0@, seq![entries@[k as int].1]));
            assert(records_view(records@) =~= before.push(all[k as int]));
            assert(all.take(k + 1) =~= all.take(k as int).push(all[k as int]));
            k = k + 1;
        }
        assert(entry_records(entries_view(entries@)).take(n as int) =~= entry_records(
            entries_view(entries@),
        ));
        let lines = merge_records(&characters, &records);
        write_records(&lines)
    }

    /// The reverse table: the characters with their shortcut codes, merged by
    /// key with the full table's entries in rising order.
    pub fn reverse_table(&self) -> (r: String)
        requires
            self.wf(),
        ensures
            r@ == self.reverse_table_text(),
    {
        let mut entries = self.full_table();
        sort_entries(&mut entries);
        proof {
            lemma_rising_order(
                self.full_entries(INDEX_UPPER_BOUND as int),
                entries_view(entries@),
            );
        }
        self.reverse_table_from(&entries)
    }
}

} // verus!
