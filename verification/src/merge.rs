use vstd::prelude::*;
use vstd::string::*;
use crate::code::{index_bytes, index_letters, WubiCode};
use crate::text::{
    bytes_text, entry_lt, lemma_text_order_total, lemma_text_order_transitive, push_bytes,
    push_char, sorted_entries, text_before, text_lt,
};

verus! {

/// The codes of a line, each with a blank before it.
pub open spec fn code_words(codes: Seq<u32>) -> Seq<char>
    decreases codes.len(),
{
    if codes.len() == 0 {
        Seq::empty()
    } else {
        code_words(codes.drop_last()) + seq![' '] + bytes_text(
            index_letters(codes.last() as int),
        )
    }
}

/// One line of the reverse table: the key, its codes, a line feed.
pub open spec fn reverse_line(record: (Seq<char>, Seq<u32>)) -> Seq<char> {
    record.0 + code_words(record.1) + seq!['\n']
}

/// The lines of a list of records.
pub open spec fn reverse_lines(records: Seq<(Seq<char>, Seq<u32>)>) -> Seq<char>
    decreases records.len(),
{
    if records.len() == 0 {
        Seq::empty()
    } else {
        reverse_lines(records.drop_last()) + reverse_line(records.last())
    }
}

/// Two lists of records merged by their keys. Of two first records the one
/// with the lesser key goes first; two with the same key become one, with the
/// codes of the first list's record before those of the second's.
pub open spec fn merged(
    a: Seq<(Seq<char>, Seq<u32>)>,
    b: Seq<(Seq<char>, Seq<u32>)>,
) -> Seq<(Seq<char>, Seq<u32>)>
    decreases a.len() + b.len(),
{
    if a.len() == 0 {
        b
    } else if b.len() == 0 {
        a
    } else if text_lt(a[0].0, b[0].0) {
        seq![a[0]] + merged(a.drop_first(), b)
    } else if text_lt(b[0].0, a[0].0) {
        seq![b[0]] + merged(a, b.drop_first())
    } else {
        seq![(a[0].0, a[0].1 + b[0].1)] + merged(a.drop_first(), b.drop_first())
    }
}

/// A list of keys with a list of indices each, as texts and indices.
pub open spec fn records_view(records: Seq<(String, Vec<u32>)>) -> Seq<(Seq<char>, Seq<u32>)> {
    Seq::new(records.len(), |k: int| (records[k].0@, records[k].1@))
}

/// The indices of a list of codes, as they are stored.
pub open spec fn stored_indices(codes: Seq<WubiCode>) -> Seq<u32> {
    Seq::new(codes.len(), |k: int| codes[k].spec_index() as u32)
}

/// A list of characters with their codes, as texts and indices.
pub open spec fn coded_view(entries: Seq<(char, Vec<WubiCode>)>) -> Seq<(Seq<char>, Seq<u32>)> {
    Seq::new(entries.len(), |k: int| (seq![entries[k].0], stored_indices(entries[k].1@)))
}

/// Each entry as a record with one code.
pub open spec fn entry_records(entries: Seq<(Seq<char>, u32)>) -> Seq<(Seq<char>, Seq<u32>)> {
    Seq::new(entries.len(), |k: int| (entries[k].0, seq![entries[k].1]))
}

/// The phrases of one index, each with the index.
pub open spec fn entries_at(phrases: Seq<Seq<char>>, index: int) -> Seq<(Seq<char>, u32)> {
    Seq::new(phrases.len(), |j: int| (phrases[j], index as u32))
}

/// The keys of a list of records rise: each record's key comes before the keys
/// of the records behind it.
pub open spec fn keys_rise(records: Seq<(Seq<char>, Seq<u32>)>) -> bool {
    forall|i: int, j: int|
        0 <= i < j < records.len() ==> text_lt(#[trigger] records[i].0, #[trigger] records[j].0)
}

/// Whether a key is the key of one of the records.
pub open spec fn has_key(records: Seq<(Seq<char>, Seq<u32>)>, key: Seq<char>) -> bool {
    exists|i: int| 0 <= i < records.len() && (#[trigger] records[i]).0 == key
}

/// No two entries have the same phrase.
pub open spec fn distinct_phrases(entries: Seq<(Seq<char>, u32)>) -> bool {
    forall|i: int, j: int|
        0 <= i < j < entries.len() ==> (#[trigger] entries[i]).0 != (#[trigger] entries[j]).0
}

/// A record whose key comes before the keys of a rising list makes a rising
/// list when it is put before them.
proof fn lemma_rise_behind(
    first: (Seq<char>, Seq<u32>),
    rest: Seq<(Seq<char>, Seq<u32>)>,
)
    requires
        keys_rise(rest),
        forall|k: int| 0 <= k < rest.len() ==> text_lt(first.0, (#[trigger] rest[k]).0),
    ensures
        keys_rise(seq![first] + rest),
{
    let all = seq![first] + rest;
    assert forall|i: int, j: int| 0 <= i < j < all.len() implies text_lt(
        #[trigger] all[i].0,
        #[trigger] all[j].0,
    ) by {
        assert(all[j] == rest[j - 1]);
        if i > 0 {
            assert(all[i] == rest[i - 1]);
        }
    }
}

/// Merging two lists whose keys rise gives a list whose keys rise, and whose
/// keys are the keys of the two lists.
pub proof fn lemma_merged_keys_rise(
    a: Seq<(Seq<char>, Seq<u32>)>,
    b: Seq<(Seq<char>, Seq<u32>)>,
)
    requires
        keys_rise(a),
        keys_rise(b),
    ensures
        keys_rise(merged(a, b)),
        forall|k: int|
            0 <= k < merged(a, b).len() ==> has_key(a, (#[trigger] merged(a, b)[k]).0) || has_key(
                b,
                merged(a, b)[k].0,
            ),
    decreases a.len() + b.len(),
{
    let m = merged(a, b);
    if a.len() == 0 {
        assert forall|k: int| 0 <= k < m.len() implies has_key(b, (#[trigger] m[k]).0) by {
            assert(b[k].0 == m[k].0);
        }
    } else if b.len() == 0 {
        assert forall|k: int| 0 <= k < m.len() implies has_key(a, (#[trigger] m[k]).0) by {
            assert(a[k].0 == m[k].0);
        }
    } else {
        let first_a = text_lt(a[0].0, b[0].0);
        let first_b = !first_a && text_lt(b[0].0, a[0].0);
        let ra = if first_a || !first_b {
            a.drop_first()
        } else {
            a
        };
        let rb = if first_a {
            b
        } else {
            b.drop_first()
        };
        let head = if first_a {
            a[0]
        } else if first_b {
            b[0]
        } else {
            (a[0].0, a[0].1 + b[0].1)
        };
        assert(m == seq![head] + merged(ra, rb));
        assert(keys_rise(ra)) by {
            assert forall|i: int, j: int| 0 <= i < j < ra.len() implies text_lt(
                #[trigger] ra[i].0,
                #[trigger] ra[j].0,
            ) by {
                if first_a || !first_b {
                    assert(ra[i] == a[i + 1] && ra[j] == a[j + 1]);
                }
            }
        }
        assert(keys_rise(rb)) by {
            assert forall|i: int, j: int| 0 <= i < j < rb.len() implies text_lt(
                #[trigger] rb[i].0,
                #[trigger] rb[j].0,
            ) by {
                if !first_a {
                    assert(rb[i] == b[i + 1] && rb[j] == b[j + 1]);
                }
            }
        }
        lemma_merged_keys_rise(ra, rb);
        let rest = merged(ra, rb);
        lemma_text_order_total(a[0].0, b[0].0);
        assert forall|k: int| 0 <= k < rest.len() implies text_lt(head.0, (#[trigger] rest[k]).0)
            && (has_key(a, rest[k].0) || has_key(b, rest[k].0)) by {
            let key = rest[k].0;
            if has_key(ra, key) {
                let i = choose|i: int| 0 <= i < ra.len() && (#[trigger] ra[i]).0 == key;
                if first_a || !first_b {
                    assert(ra[i] == a[i + 1]);
                    assert(text_lt(a[0].0, a[i + 1].0));
                    assert(has_key(a, key));
                } else {
                    assert(a[i].0 == key);
                    if i > 0 {
                        assert(text_lt(a[0].0, a[i].0));
                        lemma_text_order_transitive(b[0].0, a[0].0, key);
                    }
                }
            } else {
                assert(has_key(rb, key));
                let j = choose|j: int| 0 <= j < rb.len() && (#[trigger] rb[j]).0 == key;
                if !first_a {
                    assert(rb[j] == b[j + 1]);
                    assert(text_lt(b[0].0, b[j + 1].0));
                    assert(has_key(b, key));
                } else {
                    assert(b[j].0 == key);
                    if j > 0 {
                        assert(text_lt(b[0].0, b[j].0));
                        lemma_text_order_transitive(a[0].0, b[0].0, key);
                    }
                }
            }
        }
        lemma_rise_behind(head, rest);
        assert forall|k: int| 0 <= k < m.len() implies has_key(a, (#[trigger] m[k]).0) || has_key(
            b,
            m[k].0,
        ) by {
            if k == 0 {
                assert(a[0].0 == head.0 || b[0].0 == head.0);
            } else {
                assert(m[k] == rest[k - 1]);
            }
        }
    }
}

/// Merging leaves no key out: each key of the two lists is the key of a merged
/// record.
pub proof fn lemma_merged_keeps_keys(
    a: Seq<(Seq<char>, Seq<u32>)>,
    b: Seq<(Seq<char>, Seq<u32>)>,
)
    ensures
        forall|i: int| 0 <= i < a.len() ==> has_key(merged(a, b), (#[trigger] a[i]).0),
        forall|j: int| 0 <= j < b.len() ==> has_key(merged(a, b), (#[trigger] b[j]).0),
    decreases a.len() + b.len(),
{
    let m = merged(a, b);
    if a.len() == 0 {
        assert forall|j: int| 0 <= j < b.len() implies has_key(m, (#[trigger] b[j]).0) by {
            assert(m[j].0 == b[j].0);
        }
    } else if b.len() == 0 {
        assert forall|i: int| 0 <= i < a.len() implies has_key(m, (#[trigger] a[i]).0) by {
            assert(m[i].0 == a[i].0);
        }
    } else {
        let first_a = text_lt(a[0].0, b[0].0);
        let first_b = !first_a && text_lt(b[0].0, a[0].0);
        let ra = if first_a || !first_b {
            a.drop_first()
        } else {
            a
        };
        let rb = if first_a {
            b
        } else {
            b.drop_first()
        };
        let rest = merged(ra, rb);
        lemma_merged_keeps_keys(ra, rb);
        lemma_text_order_total(a[0].0, b[0].0);
        assert(m.len() == rest.len() + 1);
        assert(forall|k: int| 0 <= k < rest.len() ==> m[k + 1] == rest[k]);
        assert forall|key: Seq<char>| has_key(rest, key) implies has_key(m, key) by {
            let k = choose|k: int| 0 <= k < rest.len() && (#[trigger] rest[k]).0 == key;
            assert(m[k + 1].0 == key);
        }
        assert forall|i: int| 0 <= i < a.len() implies has_key(m, (#[trigger] a[i]).0) by {
            if first_a || !first_b {
                if i == 0 {
                    assert(m[0].0 == a[0].0);
                } else {
                    assert(ra[i - 1] == a[i]);
                    assert(has_key(rest, ra[i - 1].0));
                }
            } else {
                assert(has_key(rest, ra[i].0));
            }
        }
        assert forall|j: int| 0 <= j < b.len() implies has_key(m, (#[trigger] b[j]).0) by {
            if !first_a {
                if j == 0 {
                    assert(m[0].0 == b[0].0);
                } else {
                    assert(rb[j - 1] == b[j]);
                    assert(has_key(rest, rb[j - 1].0));
                }
            } else {
                assert(has_key(rest, rb[j].0));
            }
        }
    }
}

/// The records of entries that are in rising order and have distinct phrases
/// have keys that rise.
pub proof fn lemma_entry_keys_rise(entries: Seq<(Seq<char>, u32)>)
    requires
        sorted_entries(entries),
        distinct_phrases(entries),
    ensures
        keys_rise(entry_records(entries)),
{
    let records = entry_records(entries);
    assert forall|i: int, j: int| 0 <= i < j < records.len() implies text_lt(
        #[trigger] records[i].0,
        #[trigger] records[j].0,
    ) by {
        assert(!entry_lt(entries[j], entries[i]));
        assert(entries[i].0 != entries[j].0);
        lemma_text_order_total(entries[i].0, entries[j].0);
    }
}

/// In a list of entries in rising order, two entries with the same phrase have
/// a neighbour with that phrase: where no two neighbours have the same phrase,
/// no two entries have.
pub proof fn lemma_neighbours_decide(entries: Seq<(Seq<char>, u32)>)
    requires
        sorted_entries(entries),
        forall|i: int|
            0 <= i < entries.len() - 1 ==> (#[trigger] entries[i]).0 != entries[i + 1].0,
    ensures
        distinct_phrases(entries),
{
    assert forall|i: int, j: int| 0 <= i < j < entries.len() implies (#[trigger] entries[i]).0
        != (#[trigger] entries[j]).0 by {
        if entries[i].0 == entries[j].0 && i + 1 < j {
            assert(!entry_lt(entries[i + 1], entries[i]));
            assert(!entry_lt(entries[j], entries[i + 1]));
            lemma_text_order_total(entries[i].0, entries[i + 1].0);
        }
        assert(entries[i].0 != entries[i + 1].0);
    }
}

/// The same entries in another order have distinct phrases where they had
/// before.
pub proof fn lemma_distinct_phrases_reordered(
    before: Seq<(Seq<char>, u32)>,
    after: Seq<(Seq<char>, u32)>,
)
    requires
        distinct_phrases(before),
        before.to_multiset() == after.to_multiset(),
    ensures
        distinct_phrases(after),
{
    assert(before.no_duplicates()) by {
        assert forall|i: int, j: int|
            0 <= i < before.len() && 0 <= j < before.len() && i != j implies before[i]
            != before[j] by {
            if i < j {
                assert(before[i].0 != before[j].0);
            } else {
                assert(before[j].0 != before[i].0);
            }
        }
    }
    before.lemma_multiset_has_no_duplicates();
    after.lemma_multiset_has_no_duplicates_conv();
    assert forall|i: int, j: int| 0 <= i < j < after.len() implies (#[trigger] after[i]).0 != (
    #[trigger] after[j]).0 by {
        vstd::seq_lib::to_multiset_contains(after, after[i]);
        vstd::seq_lib::to_multiset_contains(after, after[j]);
        vstd::seq_lib::to_multiset_contains(before, after[i]);
        vstd::seq_lib::to_multiset_contains(before, after[j]);
        assert(after.contains(after[i]) && after.contains(after[j]));
        let p = choose|p: int| 0 <= p < before.len() && before[p] == after[i];
        let q = choose|q: int| 0 <= q < before.len() && before[q] == after[j];
        assert(after[i] != after[j]);
        if p < q {
            assert(before[p].0 != before[q].0);
        } else {
            assert(before[q].0 != before[p].0);
        }
    }
}

/// Merges two lists of records by their keys.
pub fn merge_records(a: &Vec<(String, Vec<u32>)>, b: &Vec<(String, Vec<u32>)>) -> (r: Vec<
    (String, Vec<u32>),
>)
    ensures
        records_view(r@) == merged(records_view(a@), records_view(b@)),
{
    let ghost left = records_view(a@);
    let ghost right = records_view(b@);
    let n: usize = a.len();
    let m: usize = b.len();
    let mut out: Vec<(String, Vec<u32>)> = Vec::new();
    let mut i: usize = 0;
    let mut j: usize = 0;
    assert(left.skip(0) =~= left && right.skip(0) =~= right);
    assert(records_view(out@) + merged(left, right) =~= merged(left, right));
    while i < n || j < m
        invariant
            left == records_view(a@),
            right == records_view(b@),
            n == a@.len(),
            m == b@.len(),
            i <= n,
            j <= m,
            records_view(out@) + merged(left.skip(i as int), right.skip(j as int)) == merged(
                left,
                right,
            ),
        decreases (n - i) + (m - j),
    {
        let ghost before = records_view(out@);
        let ghost x = left.skip(i as int);
        let ghost y = right.skip(j as int);
        proof {
            if i < n {
                assert(x[0] == left[i as int]);
                assert(x.drop_first() =~= left.skip(i + 1));
            }
            if j < m {
                assert(y[0] == right[j as int]);
                assert(y.drop_first() =~= right.skip(j + 1));
            }
        }
        let take_left: bool = j == m || (i < n && text_before(a[i].0.as_str(), b[j].0.as_str()));
        let take_right: bool = !take_left && (i == n || text_before(
            b[j].0.as_str(),
            a[i].0.as_str(),
        ));
        if take_left {
            let codes = copy_codes(&a[i].1);
            out.push((a[i].0.clone(), codes));
            assert(records_view(out@) =~= before.push(left[i as int]));
            assert(merged(x, y) =~= seq![x[0]] + merged(x.drop_first(), y));
            i = i + 1;
        } else if take_right {
            let codes = copy_codes(&b[j].1);
            out.push((b[j].0.clone(), codes));
            assert(records_view(out@) =~= before.push(right[j as int]));
            assert(merged(x, y) =~= seq![y[0]] + merged(x, y.drop_first()));
            j = j + 1;
        } else {
            let mut codes = copy_codes(&a[i].1);
            let mut more = copy_codes(&b[j].1);
            codes.append(&mut more);
            out.push((a[i].0.clone(), codes));
            assert(records_view(out@) =~= before.push(
                (left[i as int].0, left[i as int].1 + right[j as int].1),
            ));
            i = i + 1;
            j = j + 1;
        }
        assert(records_view(out@) + merged(left.skip(i as int), right.skip(j as int))
            =~= before + merged(x, y));
    }
    assert(merged(left.skip(n as int), right.skip(m as int)) =~= Seq::empty());
    assert(records_view(out@) + Seq::<(Seq<char>, Seq<u32>)>::empty() =~= records_view(out@));
    out
}

/// A copy of a list of indices.
fn copy_codes(codes: &Vec<u32>) -> (r: Vec<u32>)
    ensures
        r@ == codes@,
{
    let mut out: Vec<u32> = Vec::new();
    let n: usize = codes.len();
    let mut k: usize = 0;
    while k < n
        invariant
            n == codes@.len(),
            k <= n,
            out@ == codes@.take(k as int),
        decreases n - k,
    {
        out.push(codes[k]);
        assert(out@ =~= codes@.take(k + 1));
        k = k + 1;
    }
    assert(codes@.take(n as int) =~= codes@);
    out
}

/// Writes a list of records out, one line each: the key, then each code with a
/// blank before it.
pub fn write_records(records: &Vec<(String, Vec<u32>)>) -> (r: String)
    ensures
        r@ == reverse_lines(records_view(records@)),
{
    let ghost all = records_view(records@);
    let mut out = String::new();
    let n: usize = records.len();
    let mut k: usize = 0;
    assert(all.take(0) =~= Seq::empty());
    while k < n
        invariant
            all == records_view(records@),
            n == records@.len(),
            k <= n,
            out@ == reverse_lines(all.take(k as int)),
        decreases n - k,
    {
        let ghost start = out@;
        let key = &records[k].0;
        let codes = &records[k].1;
        proof {
            assert(all.take(k + 1).drop_last() =~= all.take(k as int));
            assert(all.take(k + 1).last() == (key@, codes@));
        }
        out.append(key.as_str());
        let count: usize = codes.len();
        let mut c: usize = 0;
        assert(codes@.take(0) =~= Seq::empty());
        assert(out@ =~= start + key@ + code_words(codes@.take(0)));
        while c < count
            invariant
                count == codes@.len(),
                c <= count,
                out@ == start + key@ + code_words(codes@.take(c as int)),
            decreases count - c,
        {
            proof {
                assert(codes@.take(c + 1).drop_last() =~= codes@.take(c as int));
                assert(codes@.take(c + 1).last() == codes@[c as int]);
            }
            push_char(&mut out, ' ');
            let letters = index_bytes(codes[c]);
            push_bytes(&mut out, letters.as_slice());
            assert(out@ =~= start + key@ + code_words(codes@.take(c + 1)));
            c = c + 1;
        }
        assert(codes@.take(count as int) =~= codes@);
        push_char(&mut out, '\n');
        assert(out@ =~= start + reverse_line((key@, codes@)));
        k = k + 1;
    }
    assert(all.take(n as int) =~= all);
    out
}

} // verus!
