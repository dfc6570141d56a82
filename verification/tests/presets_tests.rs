use virgola::encoding::TextEncoding;
use virgola::layout::{column_widths, window_title};
use virgola::presets::{
    custom_separator, encoding_at, index_of_encoding, index_of_separator, separator_at,
    CUSTOM_SEP_IDX,
};

#[test]
fn separators_by_position() {
    assert_eq!(separator_at(0), Some(b','));
    assert_eq!(separator_at(1), Some(b';'));
    assert_eq!(separator_at(2), Some(b'\t'));
    assert_eq!(separator_at(3), Some(b'|'));
    assert_eq!(separator_at(CUSTOM_SEP_IDX), None);
    assert_eq!(separator_at(9), None);
}

#[test]
fn separator_positions_round_trip() {
    for i in 0..CUSTOM_SEP_IDX {
        let sep = separator_at(i).unwrap();
        assert_eq!(index_of_separator(sep), Some(i));
    }
    assert_eq!(index_of_separator(b':'), None);
}

#[test]
fn encodings_by_position() {
    let (e, bom) = encoding_at(1);
    assert_eq!(e.name(), "UTF-8");
    assert!(bom);
    let (e, bom) = encoding_at(2);
    assert_eq!(e.name(), "windows-1252");
    assert!(!bom);
    let (e, bom) = encoding_at(6);
    assert_eq!(e.name(), "UTF-16BE");
    assert!(bom);
}

#[test]
fn encoding_positions_round_trip() {
    for i in 0..7 {
        let (e, bom) = encoding_at(i);
        assert_eq!(index_of_encoding(&e, bom), i);
    }
}

#[test]
fn unknown_encoding_choice_falls_back_to_utf8() {
    let koi = TextEncoding::from_name("KOI8-R").unwrap();
    assert_eq!(index_of_encoding(&koi, false), 0);
    let latin = TextEncoding::from_name("windows-1252").unwrap();
    assert_eq!(index_of_encoding(&latin, true), 0);
}

#[test]
fn custom_separator_accepts_printable_ascii() {
    assert_eq!(custom_separator("#"), Some(b'#'));
    assert_eq!(custom_separator(" "), Some(b' '));
    assert_eq!(custom_separator(""), None);
    assert_eq!(custom_separator("\u{7f}"), None);
    assert_eq!(custom_separator("\t"), None);
    assert_eq!(custom_separator("é"), None);
}

#[test]
fn column_widths_follow_the_longest_text() {
    let headers = vec!["id".to_string(), "description".to_string(), "x".to_string()];
    let rows = vec![
        vec!["1".to_string(), "short".to_string()],
        vec!["22".to_string(), "a".repeat(40), "y".to_string()],
    ];
    // id: 2 chars -> 32 -> 60; description: 40 chars -> 336 -> 300; x: 1 -> 60.
    assert_eq!(column_widths(&headers, &rows), vec![60, 300, 60]);
    let headers = vec!["abcdefg".to_string()];
    let rows: Vec<Vec<String>> = vec![vec!["é".repeat(8)]];
    // 8 characters (16 bytes) -> 80
    assert_eq!(column_widths(&headers, &rows), vec![80]);
    let headers = vec!["é".repeat(7)];
    // 7 characters (14 bytes) -> 72
    assert_eq!(column_widths(&headers, &[]), vec![72]);
}

#[test]
fn column_widths_sample_fifty_rows() {
    let headers = vec!["h".to_string()];
    let mut rows: Vec<Vec<String>> = (0..50).map(|_| vec!["12345".to_string()]).collect();
    rows.push(vec!["a".repeat(100)]);
    // 5 chars -> 56 -> 60; the long row 51 is not sampled.
    assert_eq!(column_widths(&headers, &rows), vec![60]);
}

#[test]
fn title_marks_unsaved_changes() {
    assert_eq!(window_title(Some("data.csv"), false), "data.csv");
    assert_eq!(window_title(Some("data.csv"), true), "data.csv*");
    assert_eq!(window_title(None, false), "Untitled");
    assert_eq!(window_title(None, true), "Untitled*");
}
