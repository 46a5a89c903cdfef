use vstd::prelude::*;
use vstd::string::*;

verus! {

/// `String::push`: puts one character behind the others.
#[verifier::external_body]
pub(crate) fn push_char(text: &mut String, ch: char)
    ensures
        final(text)@ == old(text)@.push(ch),
{
    text.push(ch)
}

/// The text that holds one character.
pub fn char_text(ch: char) -> (text: String)
    ensures
        text@ == seq![ch],
{
    let mut text = String::new();
    push_char(&mut text, ch);
    assert(text@ =~= seq![ch]);
    text
}

/// The characters that stand for a string of ASCII bytes.
pub open spec fn bytes_text(bytes: Seq<u8>) -> Seq<char> {
    Seq::new(bytes.len(), |i: int| bytes[i] as char)
}

/// Puts the characters of a string of bytes behind a text, one for each byte.
pub fn push_bytes(text: &mut String, bytes: &[u8])
    ensures
        final(text)@ == old(text)@ + bytes_text(bytes@),
{
    let n: usize = bytes.len();
    let mut i: usize = 0;
    while i < n
        invariant
            n == bytes@.len(),
            i <= n,
            text@ == old(text)@ + bytes_text(bytes@.take(i as int)),
        decreases n - i,
    {
        push_char(text, bytes[i] as char);
        assert(bytes_text(bytes@.take(i + 1)) =~= bytes_text(bytes@.take(i as int)).push(
            bytes@[i as int] as char,
        ));
        i = i + 1;
    }
    assert(bytes@.take(n as int) =~= bytes@);
}

/// The order of two texts by their characters' numbers, a text coming before
/// every longer one that it begins. The UTF-8 bytes of two texts are in the
/// same order.
pub open spec fn text_lt(a: Seq<char>, b: Seq<char>) -> bool
    decreases a.len(),
{
    if b.len() == 0 {
        false
    } else if a.len() == 0 {
        true
    } else if a[0] != b[0] {
        (a[0] as u32) < (b[0] as u32)
    } else {
        text_lt(a.drop_first(), b.drop_first())
    }
}

/// Two characters that differ have different numbers.
pub proof fn lemma_distinct_chars(a: char, b: char)
    ensures
        a != b ==> a as u32 != b as u32,
{
}

/// Of two texts that differ, one comes before the other.
pub proof fn lemma_text_order_total(a: Seq<char>, b: Seq<char>)
    ensures
        a == b || text_lt(a, b) || text_lt(b, a),
    decreases a.len(),
{
    if a.len() > 0 && b.len() > 0 && a[0] == b[0] {
        lemma_text_order_total(a.drop_first(), b.drop_first());
        if a.drop_first() == b.drop_first() {
            assert(a =~= seq![a[0]] + a.drop_first());
            assert(b =~= seq![b[0]] + b.drop_first());
        }
    } else if a.len() == 0 && b.len() == 0 {
        assert(a =~= b);
    } else if a.len() > 0 && b.len() > 0 {
        lemma_distinct_chars(a[0], b[0]);
    }
}

/// No text comes before itself, and of two texts only one comes before the
/// other.
pub proof fn lemma_text_order_strict(a: Seq<char>, b: Seq<char>)
    ensures
        !(text_lt(a, b) && text_lt(b, a)),
        a == b ==> !text_lt(a, b),
    decreases a.len(),
{
    if a.len() > 0 && b.len() > 0 && a[0] == b[0] {
        lemma_text_order_strict(a.drop_first(), b.drop_first());
    }
}

/// A text that comes before a second comes before every text that the second
/// comes before.
pub proof fn lemma_text_order_transitive(a: Seq<char>, b: Seq<char>, c: Seq<char>)
    requires
        text_lt(a, b),
        text_lt(b, c),
    ensures
        text_lt(a, c),
    decreases a.len(),
{
    if a.len() > 0 && b.len() > 0 && c.len() > 0 && a[0] == b[0] && b[0] == c[0] {
        lemma_text_order_transitive(a.drop_first(), b.drop_first(), c.drop_first());
    }
}

/// Whether the first text comes before the second.
pub fn text_before(a: &str, b: &str) -> (r: bool)
    ensures
        r == text_lt(a@, b@),
{
    let n: usize = a.unicode_len();
    let m: usize = b.unicode_len();
    let mut i: usize = 0;
    assert(a@.skip(0) =~= a@ && b@.skip(0) =~= b@);
    while i < n && i < m
        invariant
            n == a@.len(),
            m == b@.len(),
            i <= n,
            i <= m,
            text_lt(a@, b@) == text_lt(a@.skip(i as int), b@.skip(i as int)),
        decreases n - i,
    {
        let x: char = a.get_char(i);
        let y: char = b.get_char(i);
        proof {
            assert(a@.skip(i as int)[0] == x);
            assert(b@.skip(i as int)[0] == y);
            assert(a@.skip(i as int).drop_first() =~= a@.skip(i + 1));
            assert(b@.skip(i as int).drop_first() =~= b@.skip(i + 1));
        }
        if x != y {
            return (x as u32) < (y as u32);
        }
        i = i + 1;
    }
    assert(i == n ==> a@.skip(i as int).len() == 0);
    assert(i == m ==> b@.skip(i as int).len() == 0);
    i < m
}

/// A list of phrases with the index of a code each, as texts and indices.
pub open spec fn entries_view(entries: Seq<(String, u32)>) -> Seq<(Seq<char>, u32)> {
    Seq::new(entries.len(), |k: int| (entries[k].0@, entries[k].1))
}

/// The order of two entries: by their texts, and by their indices where the
/// texts are the same.
pub open spec fn entry_lt(a: (Seq<char>, u32), b: (Seq<char>, u32)) -> bool {
    text_lt(a.0, b.0) || (a.0 == b.0 && a.1 < b.1)
}

/// No entry comes before one that stands earlier in the list.
pub open spec fn sorted_entries(entries: Seq<(Seq<char>, u32)>) -> bool {
    forall|i: int, j: int|
        0 <= i < j < entries.len() ==> !entry_lt(#[trigger] entries[j], #[trigger] entries[i])
}

/// Whether the first entry does not come behind the second.
pub open spec fn entry_le(a: (Seq<char>, u32), b: (Seq<char>, u32)) -> bool {
    !entry_lt(b, a)
}

/// The order of the entries is a total order.
pub proof fn lemma_entry_order_total()
    ensures
        vstd::relations::total_ordering(|a: (Seq<char>, u32), b: (Seq<char>, u32)| entry_le(a, b)),
{
    let le = |a: (Seq<char>, u32), b: (Seq<char>, u32)| entry_le(a, b);
    assert forall|x: (Seq<char>, u32)| #[trigger] le(x, x) by {
        lemma_text_order_strict(x.0, x.0);
    }
    assert forall|x: (Seq<char>, u32), y: (Seq<char>, u32)| #[trigger]
        le(x, y) && #[trigger] le(y, x) implies x == y by {
        lemma_text_order_total(x.0, y.0);
    }
    assert forall|x: (Seq<char>, u32), y: (Seq<char>, u32)| #[trigger]
        le(x, y) || #[trigger] le(y, x) by {
        lemma_text_order_strict(x.0, y.0);
    }
    assert forall|x: (Seq<char>, u32), y: (Seq<char>, u32), z: (Seq<char>, u32)| #[trigger]
        le(x, y) && #[trigger] le(y, z) implies le(x, z) by {
        lemma_text_order_total(x.0, y.0);
        lemma_text_order_total(y.0, z.0);
        lemma_text_order_strict(x.0, z.0);
        lemma_text_order_strict(x.0, y.0);
        lemma_text_order_strict(y.0, z.0);
        if text_lt(x.0, y.0) && text_lt(y.0, z.0) {
            lemma_text_order_transitive(x.0, y.0, z.0);
        }
    }
}

/// There is one rising order of a list of entries.
pub proof fn lemma_sorted_entries_unique(a: Seq<(Seq<char>, u32)>, b: Seq<(Seq<char>, u32)>)
    requires
        sorted_entries(a),
        sorted_entries(b),
        a.to_multiset() == b.to_multiset(),
    ensures
        a == b,
{
    let le = |x: (Seq<char>, u32), y: (Seq<char>, u32)| entry_le(x, y);
    lemma_entry_order_total();
    assert(vstd::relations::sorted_by(a, le)) by {
        assert forall|i: int, j: int| 0 <= i < j < a.len() implies #[trigger] le(a[i], a[j]) by {
            assert(!entry_lt(a[j], a[i]));
        }
    }
    assert(vstd::relations::sorted_by(b, le)) by {
        assert forall|i: int, j: int| 0 <= i < j < b.len() implies #[trigger] le(b[i], b[j]) by {
            assert(!entry_lt(b[j], b[i]));
        }
    }
    vstd::seq_lib::lemma_sorted_unique(a, b, le);
}

/// The entries of a list in rising order.
pub open spec fn rising_order(entries: Seq<(Seq<char>, u32)>) -> Seq<(Seq<char>, u32)> {
    choose|sorted: Seq<(Seq<char>, u32)>|
        sorted_entries(sorted) && sorted.to_multiset() == entries.to_multiset()
}

/// A list in rising order that holds the entries of another, each as often, is
/// that list's rising order.
pub proof fn lemma_rising_order(entries: Seq<(Seq<char>, u32)>, sorted: Seq<(Seq<char>, u32)>)
    requires
        sorted_entries(sorted),
        sorted.to_multiset() == entries.to_multiset(),
    ensures
        sorted == rising_order(entries),
{
    lemma_sorted_entries_unique(sorted, rising_order(entries));
}

/// The slice method `sort` of std: the list afterwards holds the entries that it
/// held before, each as often, in rising order. Strings are ordered by their
/// UTF-8 bytes, which is the order of their characters' numbers, and pairs by
/// their first parts first.
#[verifier::external_body]
pub(crate) fn sort_entries(entries: &mut Vec<(String, u32)>)
    ensures
        sorted_entries(entries_view(final(entries)@)),
        entries_view(final(entries)@).to_multiset() == entries_view(old(entries)@).to_multiset(),
{
    entries.sort()
}

} // verus!
