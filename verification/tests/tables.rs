use wubi_table::simplified::{CHAR_MAX, CHAR_MIN};
use wubi_table::{FullCodeTable, ParseError, SimplifiedCodeTable, Table, WubiCode, WubiEntry};

fn code(letters: &str) -> WubiCode {
    WubiCode::try_from(letters.as_bytes()).unwrap()
}

fn entry(phrase: &str, letters: &str) -> WubiEntry {
    WubiEntry { phrase: phrase.to_string(), wubi_code: code(letters) }
}

#[test]
fn simplified_insert_sets_both_directions() {
    let mut table = SimplifiedCodeTable::new();
    assert_eq!(table.insert(&code("a"), '工'), Ok(()));
    assert_eq!(table.insert(&code("aa"), '工'), Ok(()));
    assert_eq!(table.insert(&code("b"), '了'), Ok(()));
    assert_eq!(*table.char_of_code(&code("a")), Some('工'));
    assert_eq!(*table.char_of_code(&code("aa")), Some('工'));
    assert_eq!(*table.char_of_code(&code("b")), Some('了'));
    assert_eq!(*table.char_of_code(&code("c")), None);
    assert_eq!(table.code_of_char('工'), Some(vec![code("a"), code("aa")]));
    assert_eq!(table.code_of_char('了'), Some(vec![code("b")]));
    assert_eq!(table.code_of_char('大'), Some(vec![]));
    assert!(table.has_pair('工', &code("a")));
    assert!(!table.has_pair('了', &code("a")));
    assert!(!table.has_pair('了', &code("c")));
}

#[test]
fn simplified_duplicate_code_is_refused() {
    let mut table = SimplifiedCodeTable::new();
    assert_eq!(table.insert(&code("a"), '工'), Ok(()));
    assert_eq!(table.insert(&code("a"), '了'), Err(ParseError::DuplicateCode));
    assert_eq!(*table.char_of_code(&code("a")), Some('工'));
    assert_eq!(table.code_of_char('了'), Some(vec![]));
}

#[test]
fn simplified_character_outside_the_range_is_refused() {
    let mut table = SimplifiedCodeTable::new();
    assert_eq!(table.insert(&code("a"), 'x'), Err(ParseError::NotValidChar));
    assert_eq!(table.insert(&code("a"), '\u{a000}'), Err(ParseError::NotValidChar));
    assert_eq!(table.insert(&code("a"), '\u{2eb2}'), Err(ParseError::NotValidChar));
    assert_eq!(*table.char_of_code(&code("a")), None);
    assert_eq!(table.code_of_char('x'), None);
    assert_eq!(table.insert(&code("a"), CHAR_MIN), Ok(()));
    assert_eq!(table.insert(&code("b"), CHAR_MAX), Ok(()));
    assert_eq!(table.code_of_char(CHAR_MIN), Some(vec![code("a")]));
    assert_eq!(table.code_of_char(CHAR_MAX), Some(vec![code("b")]));
}

#[test]
fn simplified_fourth_code_is_refused() {
    let mut table = SimplifiedCodeTable::new();
    assert_eq!(table.insert(&code("a"), '工'), Ok(()));
    assert_eq!(table.insert(&code("aa"), '工'), Ok(()));
    assert_eq!(table.insert(&code("aaa"), '工'), Ok(()));
    assert_eq!(table.insert(&code("aaaa"), '工'), Err(ParseError::Invalid));
    assert_eq!(*table.char_of_code(&code("aaaa")), None);
    assert_eq!(
        table.code_of_char('工'),
        Some(vec![code("a"), code("aa"), code("aaa")])
    );
}

#[test]
fn full_insert_keeps_the_order_of_a_code() {
    let mut table = FullCodeTable::new();
    assert_eq!(table.insert(entry("工", "aaaa")), Ok(()));
    assert_eq!(table.insert(entry("工人", "aaww")), Ok(()));
    assert_eq!(table.insert(entry("式", "aaaa")), Ok(()));
    assert_eq!(table.code(&"工".to_string()), Some(&code("aaaa")));
    assert_eq!(table.code(&"工人".to_string()), Some(&code("aaww")));
    assert_eq!(table.code(&"人".to_string()), None);
    assert_eq!(
        *table.phrases(&code("aaaa")),
        vec!["工".to_string(), "式".to_string()]
    );
    assert!(table.phrases(&code("a")).is_empty());
}

#[test]
fn full_duplicate_phrase_is_refused() {
    let mut table = FullCodeTable::new();
    assert_eq!(table.insert(entry("工人", "aaww")), Ok(()));
    assert_eq!(table.insert(entry("工人", "aaww")), Err(ParseError::DuplicatePhrase));
    assert_eq!(table.insert(entry("工人", "b")), Err(ParseError::DuplicatePhrase));
    assert_eq!(*table.phrases(&code("aaww")), vec!["工人".to_string()]);
    assert!(table.phrases(&code("b")).is_empty());
    assert_eq!(table.code(&"工人".to_string()), Some(&code("aaww")));
}

fn small_table() -> Table {
    let mut simplified = SimplifiedCodeTable::new();
    simplified.insert(&code("a"), '工').unwrap();
    let mut full = FullCodeTable::new();
    full.insert(entry("工", "a")).unwrap();
    full.insert(entry("工人", "a")).unwrap();
    full.insert(entry("大", "b")).unwrap();
    Table::new(simplified, full)
}

#[test]
fn overlap_filter_drops_only_the_covered_character() {
    let table = small_table();
    let a = code("a").index() as usize;
    let b = code("b").index() as usize;
    assert_eq!(table.filtered_at(a), vec!["工人".to_string()]);
    assert_eq!(table.filtered_at(b), vec!["大".to_string()]);
    assert_eq!(
        table.reverse_filtered_full_table(),
        vec![
            (code("a"), vec!["工人".to_string()]),
            (code("b"), vec!["大".to_string()]),
        ]
    );
}

#[test]
fn overlap_filter_skips_a_code_that_is_left_empty() {
    let mut simplified = SimplifiedCodeTable::new();
    simplified.insert(&code("a"), '工').unwrap();
    let mut full = FullCodeTable::new();
    full.insert(entry("工", "a")).unwrap();
    let table = Table::new(simplified, full);
    assert!(table.reverse_filtered_full_table().is_empty());
    assert_eq!(table.forward_table(), "a 工\n");
}

#[test]
fn simplified_stream_is_in_code_order() {
    let mut simplified = SimplifiedCodeTable::new();
    simplified.insert(&code("b"), '了').unwrap();
    simplified.insert(&code("ab"), '式').unwrap();
    simplified.insert(&code("a"), '工').unwrap();
    let table = Table::new(simplified, FullCodeTable::new());
    assert_eq!(
        table.reverse_simplified_table(),
        vec![
            (code("a"), "工".to_string()),
            (code("ab"), "式".to_string()),
            (code("b"), "了".to_string()),
        ]
    );
}

#[test]
fn forward_table_merges_by_code() {
    let table = small_table();
    assert_eq!(table.forward_table(), "a 工 工人\nb 大\n");
}

#[test]
fn mobile_table_has_one_line_for_each_payload() {
    let table = small_table();
    assert_eq!(table.mobile_table(), "a=工\na=工人\nb=大\n");
}

#[test]
fn forward_table_of_empty_tables_is_empty() {
    let table = Table::new(SimplifiedCodeTable::new(), FullCodeTable::new());
    assert_eq!(table.forward_table(), "");
    assert_eq!(table.mobile_table(), "");
    assert_eq!(table.reverse_table(), "");
}

#[test]
fn forward_table_keeps_longer_phrases_that_begin_with_the_shortcut() {
    let mut simplified = SimplifiedCodeTable::new();
    simplified.insert(&code("gg"), '五').unwrap();
    let mut full = FullCodeTable::new();
    full.insert(entry("五笔", "gg")).unwrap();
    full.insert(entry("五", "gg")).unwrap();
    full.insert(entry("一", "g")).unwrap();
    let table = Table::new(simplified, full);
    assert_eq!(table.forward_table(), "g 一\ngg 五 五笔\n");
}

#[test]
fn reverse_table_merges_by_key() {
    let mut simplified = SimplifiedCodeTable::new();
    simplified.insert(&code("a"), '工').unwrap();
    let mut full = FullCodeTable::new();
    full.insert(entry("工人", "b")).unwrap();
    let table = Table::new(simplified, full);
    assert_eq!(table.reverse_table(), "工 a\n工人 b\n");
}

#[test]
fn reverse_table_joins_equal_keys() {
    let mut simplified = SimplifiedCodeTable::new();
    simplified.insert(&code("a"), '工').unwrap();
    simplified.insert(&code("aa"), '工').unwrap();
    let mut full = FullCodeTable::new();
    full.insert(entry("工", "aaaa")).unwrap();
    let table = Table::new(simplified, full);
    assert_eq!(table.reverse_table(), "工 a aa aaaa\n");
}

#[test]
fn reverse_table_sorts_the_full_entries_by_phrase() {
    let mut simplified = SimplifiedCodeTable::new();
    simplified.insert(&code("y"), '一').unwrap();
    simplified.insert(&code("b"), '了').unwrap();
    let mut full = FullCodeTable::new();
    full.insert(entry("工人", "a")).unwrap();
    full.insert(entry("大", "b")).unwrap();
    full.insert(entry("一", "c")).unwrap();
    full.insert(entry("工", "d")).unwrap();
    let table = Table::new(simplified, full);
    assert_eq!(
        table.full_table(),
        vec![
            ("工人".to_string(), code("a").index()),
            ("大".to_string(), code("b").index()),
            ("一".to_string(), code("c").index()),
            ("工".to_string(), code("d").index()),
        ]
    );
    assert_eq!(
        table.reverse_table(),
        "一 y c\n了 b\n大 b\n工 d\n工人 a\n"
    );
}

#[test]
fn reverse_table_from_given_entries() {
    let mut simplified = SimplifiedCodeTable::new();
    simplified.insert(&code("b"), '了').unwrap();
    let table = Table::new(simplified, FullCodeTable::new());
    let entries = vec![
        ("一".to_string(), code("c").index()),
        ("工".to_string(), code("d").index()),
    ];
    assert_eq!(table.reverse_table_from(&entries), "一 c\n了 b\n工 d\n");
}

#[test]
fn simplified_records_are_in_character_order() {
    let mut simplified = SimplifiedCodeTable::new();
    simplified.insert(&code("b"), '了').unwrap();
    simplified.insert(&code("a"), '一').unwrap();
    simplified.insert(&code("bb"), '了').unwrap();
    let table = Table::new(simplified, FullCodeTable::new());
    assert_eq!(
        table.simplified_records(),
        vec![
            ("一".to_string(), vec![code("a").index()]),
            ("了".to_string(), vec![code("b").index(), code("bb").index()]),
        ]
    );
}

#[test]
fn code_as_text() {
    assert_eq!(code("a").to_string(), "a");
    assert_eq!(code("gqwe").to_string(), "gqwe");
    assert_eq!(code("yyyy").to_string(), "yyyy");
}

#[test]
fn simplified_table_is_in_character_order() {
    let mut simplified = SimplifiedCodeTable::new();
    simplified.insert(&code("b"), '了').unwrap();
    simplified.insert(&code("a"), '一').unwrap();
    simplified.insert(&code("bb"), '了').unwrap();
    let table = Table::new(simplified, FullCodeTable::new());
    assert_eq!(
        table.simplified_table(),
        vec![
            ('一', vec![code("a")]),
            ('了', vec![code("b"), code("bb")]),
        ]
    );
}

#[test]
fn filtered_full_table_drops_what_the_shortcut_shows() {
    let mut simplified = SimplifiedCodeTable::new();
    simplified.insert(&code("b"), '了').unwrap();
    simplified.insert(&code("bnh"), '了').unwrap();
    simplified.insert(&code("a"), '工').unwrap();
    let mut full = FullCodeTable::new();
    full.insert(entry("了", "bnh")).unwrap();
    full.insert(entry("工", "aaaa")).unwrap();
    full.insert(entry("工人", "a")).unwrap();
    full.insert(entry("大", "dddd")).unwrap();
    let table = Table::new(simplified, full);
    assert_eq!(
        table.filtered_full_table(),
        vec![
            ("工人".to_string(), code("a").index()),
            ("工".to_string(), code("aaaa").index()),
            ("大".to_string(), code("dddd").index()),
        ]
    );
    assert_eq!(table.reverse_table(), "了 b bnh bnh\n大 dddd\n工 a aaaa\n工人 a\n");
}

#[test]
fn slot_access() {
    let mut simplified = SimplifiedCodeTable::new();
    simplified.insert(&code("b"), '了').unwrap();
    simplified.insert(&code("bb"), '了').unwrap();
    let slot = '了' as usize - CHAR_MIN as usize;
    assert_eq!(simplified.codes_at_slot(slot), vec![code("b"), code("bb")]);
    assert_eq!(simplified.slot_entry(slot), Some(('了', vec![code("b"), code("bb")])));
    assert_eq!(
        simplified.slot_record(slot),
        Some(('了', vec![code("b").index(), code("bb").index()]))
    );
    assert_eq!(simplified.slot_entry(slot + 1), None);
    assert_eq!(simplified.slot_record(0), None);
    assert!(simplified.codes_at_slot(0).is_empty());
    assert_eq!(simplified.char_at_index(code("bb").index() as usize), Some('了'));
    assert_eq!(simplified.char_at_index(0), None);
}

#[test]
fn phrases_can_be_changed_in_place() {
    let mut full = FullCodeTable::new();
    full.insert(entry("工", "aaaa")).unwrap();
    full.insert(entry("式", "aaaa")).unwrap();
    full.phrases_mut(&code("aaaa")).swap(0, 1);
    assert_eq!(
        *full.phrases(&code("aaaa")),
        vec!["式".to_string(), "工".to_string()]
    );
    assert_eq!(full.code(&"工".to_string()), Some(&code("aaaa")));
}

#[test]
fn code_can_be_changed_in_place() {
    let mut full = FullCodeTable::new();
    full.insert(entry("工", "aaaa")).unwrap();
    full.insert(entry("式", "aaaa")).unwrap();
    assert!(full.code_mut(&"人".to_string()).is_none());
    *full.code_mut(&"式".to_string()).unwrap() = code("aad");
    assert_eq!(full.code(&"式".to_string()), Some(&code("aad")));
    assert_eq!(full.code(&"工".to_string()), Some(&code("aaaa")));
    assert_eq!(
        *full.phrases(&code("aaaa")),
        vec!["工".to_string(), "式".to_string()]
    );
}

#[test]
fn character_can_be_changed_in_place() {
    let mut simplified = SimplifiedCodeTable::new();
    simplified.insert(&code("a"), '工').unwrap();
    *simplified.char_of_code_mut(&code("a")) = Some('式');
    assert_eq!(*simplified.char_of_code(&code("a")), Some('式'));
    *simplified.char_of_code_mut(&code("b")) = None;
    assert_eq!(*simplified.char_of_code(&code("b")), None);
}

#[test]
fn phrases_are_distinct_unless_a_list_was_changed() {
    let mut full = FullCodeTable::new();
    full.insert(entry("工", "aaaa")).unwrap();
    full.insert(entry("式", "aaaa")).unwrap();
    full.insert(entry("工人", "aaww")).unwrap();
    let table = Table::new(SimplifiedCodeTable::new(), full);
    assert!(table.has_distinct_phrases());
    let mut full = table.full;
    full.phrases_mut(&code("b")).push("式".to_string());
    let table = Table::new(SimplifiedCodeTable::new(), full);
    assert!(!table.has_distinct_phrases());
    let empty = Table::new(SimplifiedCodeTable::new(), FullCodeTable::new());
    assert!(empty.has_distinct_phrases());
}

#[test]
fn default_tables_hold_nothing() {
    let table = Table::new(SimplifiedCodeTable::default(), FullCodeTable::default());
    assert!(table.reverse_simplified_table().is_empty());
    assert!(table.reverse_filtered_full_table().is_empty());
    assert!(table.simplified_table().is_empty());
    assert!(table.full_table().is_empty());
    assert!(table.payloads_at(17576).is_empty());
}
