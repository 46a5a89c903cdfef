use wubi_table::record::{
    character_entry, checked_entry, parse_line_with_codepoint, parse_line_without_codepoint,
    split_at_tab,
};
use wubi_table::loader::RecordKind;
use wubi_table::merge::{merge_records, write_records};
use wubi_table::text::{char_text, text_before};
use wubi_table::{ParseError, WubiCode, WubiTable};

fn code(letters: &str) -> WubiCode {
    WubiCode::try_from(letters.as_bytes()).unwrap()
}

#[test]
fn split_at_first_tab() {
    assert_eq!(split_at_tab("工\ta"), Some(("工", "a")));
    assert_eq!(split_at_tab("工\ta\tb"), Some(("工", "a\tb")));
    assert_eq!(split_at_tab("\t"), Some(("", "")));
    assert_eq!(split_at_tab("工 a"), None);
    assert_eq!(split_at_tab(""), None);
}

#[test]
fn plain_line_is_read() {
    let entry = parse_line_without_codepoint("工\ta").unwrap();
    assert_eq!(entry.phrase, "工");
    assert_eq!(entry.wubi_code, code("a"));
}

#[test]
fn plain_line_errors() {
    assert_eq!(
        parse_line_without_codepoint("工 a").err(),
        Some(ParseError::NoTab("工 a".to_string()))
    );
    assert_eq!(
        parse_line_without_codepoint("工人\ta").err(),
        Some(ParseError::MultipleCharacters("工人".to_string()))
    );
    assert_eq!(
        parse_line_without_codepoint("\ta").err(),
        Some(ParseError::MultipleCharacters("".to_string()))
    );
    assert_eq!(parse_line_without_codepoint("工\t").err(), Some(ParseError::Empty));
    assert_eq!(
        parse_line_without_codepoint("工\tabcde").err(),
        Some(ParseError::TooLongCode(b"abcde".to_vec()))
    );
    assert_eq!(
        parse_line_without_codepoint("工\taz").err(),
        Some(ParseError::NotValidChar)
    );
}

#[test]
fn codepoint_line_is_read() {
    let entry = parse_line_with_codepoint("U+5DE5\t工\taaaa").unwrap();
    assert_eq!(entry.phrase, "工");
    assert_eq!(entry.wubi_code, code("aaaa"));
    let lower = parse_line_with_codepoint("U+5de5\t工\ta").unwrap();
    assert_eq!(lower.wubi_code, code("a"));
}

#[test]
fn codepoint_line_errors() {
    assert_eq!(
        parse_line_with_codepoint("U+5DE5 工 aaaa").err(),
        Some(ParseError::NoTab("U+5DE5 工 aaaa".to_string()))
    );
    assert_eq!(
        parse_line_with_codepoint("U+5DE5\t工 aaaa").err(),
        Some(ParseError::NoTab("U+5DE5\t工 aaaa".to_string()))
    );
    assert_eq!(
        parse_line_with_codepoint("U+5DE5\t工人\taaaa").err(),
        Some(ParseError::MultipleCharacters("工人".to_string()))
    );
    assert_eq!(
        parse_line_with_codepoint("U+5DE6\t工\taaaa").err(),
        Some(ParseError::CodepointMismatch)
    );
    assert_eq!(
        parse_line_with_codepoint("5DE5\t工\taaaa").err(),
        Some(ParseError::CodepointMismatch)
    );
    assert!(matches!(
        parse_line_with_codepoint("U+5DEX\t工\taaaa").err(),
        Some(ParseError::ParseInt(_))
    ));
    assert!(matches!(
        parse_line_with_codepoint("U+\t工\taaaa").err(),
        Some(ParseError::ParseInt(_))
    ));
    assert_eq!(
        parse_line_with_codepoint("U+5DE5\t工\t").err(),
        Some(ParseError::Empty)
    );
    assert_eq!(
        parse_line_with_codepoint("U+5DE5\t工\taaaz").err(),
        Some(ParseError::NotValidChar)
    );
}

#[test]
fn entries_from_fields() {
    assert_eq!(character_entry('工', "ab").unwrap().wubi_code, code("ab"));
    assert_eq!(checked_entry(0x5de5, '工', "ab").unwrap().phrase, "工");
    assert_eq!(
        checked_entry(0x5de6, '工', "ab").err(),
        Some(ParseError::CodepointMismatch)
    );
}

#[test]
fn texts_are_ordered_by_their_characters() {
    assert!(text_before("工", "工人"));
    assert!(!text_before("工人", "工"));
    assert!(!text_before("工", "工"));
    assert!(text_before("", "工"));
    assert!(!text_before("", ""));
    assert!(text_before("一", "工"));
    assert!(text_before("大", "工人"));
    assert!(!text_before("工人", "大"));
    assert_eq!(text_before("a\u{10000}", "a\u{ffff}"), "a\u{10000}" < "a\u{ffff}");
    assert_eq!(char_text('工'), "工");
}

#[test]
fn records_merge_and_print() {
    let a = vec![
        ("一".to_string(), vec![code("a").index()]),
        ("工".to_string(), vec![code("b").index(), code("bb").index()]),
    ];
    let b = vec![
        ("工".to_string(), vec![code("cccc").index()]),
        ("工人".to_string(), vec![code("d").index()]),
    ];
    let merged = merge_records(&a, &b);
    assert_eq!(
        merged,
        vec![
            ("一".to_string(), vec![code("a").index()]),
            (
                "工".to_string(),
                vec![code("b").index(), code("bb").index(), code("cccc").index()]
            ),
            ("工人".to_string(), vec![code("d").index()]),
        ]
    );
    assert_eq!(write_records(&merged), "一 a\n工 b bb cccc\n工人 d\n");
    assert_eq!(merge_records(&a, &Vec::new()), a);
    assert_eq!(merge_records(&Vec::new(), &b), b);
}

fn lines(texts: &[&str]) -> Vec<String> {
    texts.iter().map(|t| t.to_string()).collect()
}

#[test]
fn whole_run() {
    let mut table = WubiTable::new();
    assert_eq!(
        table.build_without_codepoint(&lines(&["工\ta", "了\tb", "工\taa"])),
        Ok(())
    );
    assert_eq!(
        table.build_with_codepoint(&lines(&[
            "U+5DE5\t工\taaaa",
            "U+4EBA\t人\twwww",
            "U+4E86\t了\tbnh",
            "U+5927\t大\tdddd",
        ])),
        Ok(())
    );
    assert_eq!(
        table.extend_phrases(lines(&["工人", "大工人", "工人大了", "了工大人工"])),
        Ok(())
    );
    assert_eq!(
        table.write_table(),
        "a 工\naa 工\naaaa 工\naaww 工人\nawdb 工人大了\nb 了\nbada 了工大人工\nbnh 了\ndaww 大工人\ndddd 大\nwwww 人\n"
    );
    assert_eq!(
        table.write_ios_table(),
        "a=工\naa=工\naaaa=工\naaww=工人\nawdb=工人大了\nb=了\nbada=了工大人工\nbnh=了\ndaww=大工人\ndddd=大\nwwww=人\n"
    );
    assert_eq!(
        table.write_reverse_table(),
        "了 b bnh\n了工大人工 bada\n人 wwww\n大 dddd\n大工人 daww\n工 a aa aaaa\n工人 aaww\n工人大了 awdb\n"
    );
}

#[test]
fn loading_stops_at_the_first_error() {
    let mut table = WubiTable::new();
    assert_eq!(
        table.build_without_codepoint(&lines(&["工\ta", "了\ta", "大\tb"])),
        Err(ParseError::DuplicateCode)
    );
    assert_eq!(table.write_table(), "a 工\n");
    assert_eq!(
        table.build_with_codepoint(&lines(&["U+5DE5\t工\taaaa", "U+5DE5\t工\taaaa"])),
        Err(ParseError::DuplicatePhrase)
    );
}

#[test]
fn phrase_loading_errors() {
    let mut table = WubiTable::new();
    table.add_character("U+5DE5\t工\taaaa").unwrap();
    table.add_character("U+4EBA\t人\twwww").unwrap();
    assert_eq!(table.add_phrase("工".to_string()), Err(ParseError::Invalid));
    assert_eq!(table.add_phrase("".to_string()), Err(ParseError::Invalid));
    assert_eq!(
        table.add_phrase("工大".to_string()),
        Err(ParseError::MissingCharacterCode)
    );
    assert_eq!(table.add_phrase("工人".to_string()), Ok(()));
    assert_eq!(table.add_phrase("工人".to_string()), Err(ParseError::DuplicatePhrase));
    assert_eq!(table.phrase_code("人工"), Ok(code("wwaa")));
    assert_eq!(table.phrase_code("人大"), Err(ParseError::MissingCharacterCode));
    assert_eq!(
        table.extend_phrases(lines(&["人工", "人大", "工人工"])),
        Err(ParseError::MissingCharacterCode)
    );
    assert_eq!(
        table.write_table(),
        "aaaa 工\naaww 工人\nwwaa 人工\nwwww 人\n"
    );
}

#[test]
fn loaded_tables_have_a_unique_reverse_table() {
    let mut table = WubiTable::new();
    assert!(table.unique_reverse_table());
    table.add_character("U+5DE5\t工\taaaa").unwrap();
    table.add_character("U+4EBA\t人\twwww").unwrap();
    table.add_phrase("工人".to_string()).unwrap();
    assert!(table.unique_reverse_table());
    table.table.full.phrases_mut(&code("a")).push("人".to_string());
    assert!(!table.unique_reverse_table());
}

#[test]
fn simplified_line_errors_leave_the_table() {
    let mut table = WubiTable::new();
    assert_eq!(table.add_simplified("工\ta"), Ok(()));
    assert_eq!(table.add_simplified("x\tb"), Err(ParseError::NotValidChar));
    assert_eq!(table.add_simplified("了\ta"), Err(ParseError::DuplicateCode));
    assert_eq!(
        table.add_simplified("了 b"),
        Err(ParseError::NoTab("了 b".to_string()))
    );
    assert_eq!(table.add_simplified("工\taa"), Ok(()));
    assert_eq!(table.add_simplified("工\taaa"), Ok(()));
    assert_eq!(table.add_simplified("工\taaaa"), Err(ParseError::Invalid));
    assert_eq!(table.write_table(), "a 工\naa 工\naaa 工\n");
    assert_eq!(table.write_reverse_table(), "工 a aa aaa\n");
}

#[test]
fn records_of_each_kind_are_loaded() {
    let mut table = WubiTable::new();
    assert_eq!(table.load(RecordKind::Simplified, &lines(&["工\ta"])), Ok(()));
    assert_eq!(
        table.load(
            RecordKind::Character,
            &lines(&["U+5DE5\t工\taaaa", "U+4EBA\t人\twwww"])
        ),
        Ok(())
    );
    assert_eq!(table.load(RecordKind::Phrase, &lines(&["工人"])), Ok(()));
    assert_eq!(table.load(RecordKind::Phrase, &lines(&[])), Ok(()));
    assert_eq!(
        table.load(RecordKind::Phrase, &lines(&["人"])),
        Err(ParseError::Invalid)
    );
    assert_eq!(table.write_table(), "a 工\naaaa 工\naaww 工人\nwwww 人\n");
}
