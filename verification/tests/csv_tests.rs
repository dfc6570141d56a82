use virgola::csv_handler::{
    any_jagged, detect_separator, detect_separator_in_text, read_csv, write_csv, write_csv_checked,
    CsvError,
};
use virgola::encoding::TextEncoding;

fn s(v: &str) -> String {
    v.to_string()
}

fn enc(name: &str) -> TextEncoding {
    TextEncoding::from_name(name).unwrap()
}

#[test]
fn read_plain_utf8() {
    let r = read_csv(b"a,b\n1,2\n3,4\n", b',', None).unwrap();
    assert_eq!(r.headers, vec![s("a"), s("b")]);
    assert_eq!(r.rows, vec![vec![s("1"), s("2")], vec![s("3"), s("4")]]);
    assert!(!r.had_jagged_rows);
    assert_eq!(r.encoding.name(), "UTF-8");
    assert!(!r.encoding_bom);
}

#[test]
fn read_reports_jagged_rows() {
    let r = read_csv(b"a,b\n1\n2,3\n", b',', None).unwrap();
    assert_eq!(r.rows, vec![vec![s("1")], vec![s("2"), s("3")]]);
    assert!(r.had_jagged_rows);
}

#[test]
fn read_wider_rows_are_jagged_too() {
    let r = read_csv(b"a\n1,2\n", b',', None).unwrap();
    assert!(r.had_jagged_rows);
}

#[test]
fn read_strips_utf8_bom() {
    let r = read_csv(b"\xEF\xBB\xBFx;y\n1;2\n", b';', None).unwrap();
    assert_eq!(r.headers, vec![s("x"), s("y")]);
    assert!(r.encoding_bom);
    assert_eq!(r.encoding.name(), "UTF-8");
}

#[test]
fn read_with_an_encoding_hint() {
    let r = read_csv(b"caf\xe9;x\n1;2\n", b';', Some((enc("windows-1252"), false))).unwrap();
    assert_eq!(r.headers, vec![s("café"), s("x")]);
    assert_eq!(r.encoding.name(), "windows-1252");
    assert!(!r.encoding_bom);
}

#[test]
fn hinted_bom_flag_reports_the_file() {
    // The hint asks for a byte-order mark the file does not have.
    let r = read_csv(b"a,b\n1,2\n", b',', Some((TextEncoding::utf8(), true))).unwrap();
    assert_eq!(r.headers, vec![s("a"), s("b")]);
    assert_eq!(r.rows, vec![vec![s("1"), s("2")]]);
    assert!(!r.had_jagged_rows);
    assert!(r.encoding.is_utf8());
    assert!(!r.encoding_bom);
    // The file has a mark the hint does not ask to drop; the CSV reader
    // skips it all the same.
    let r = read_csv(b"\xEF\xBB\xBFa,b\n", b',', Some((TextEncoding::utf8(), false))).unwrap();
    assert_eq!(r.headers, vec![s("a"), s("b")]);
    assert!(r.encoding_bom);
}

#[test]
fn hinted_encoding_is_reported_as_requested() {
    let r = read_csv(b"\xFF\xFEa\x00", b';', Some((enc("windows-1252"), false))).unwrap();
    assert_eq!(r.encoding.name(), "windows-1252");
    assert!(!r.encoding_bom);
    let r = read_csv(b"\xFF\xFEa\x00", b';', Some((enc("UTF-16LE"), false))).unwrap();
    assert_eq!(r.headers, vec![s("a")]);
    assert!(r.encoding.is_utf16le());
    assert!(r.encoding_bom);
}

#[test]
fn read_utf16le_file_with_bom() {
    let r = read_csv(b"\xFF\xFEa\x00,\x00b\x00\n\x001\x00,\x002\x00\n\x00", b',', None).unwrap();
    assert_eq!(r.headers, vec![s("a"), s("b")]);
    assert_eq!(r.rows, vec![vec![s("1"), s("2")]]);
    assert!(r.encoding.is_utf16le());
    assert!(r.encoding_bom);
}

#[test]
fn read_empty_file() {
    let r = read_csv(b"", b',', None).unwrap();
    assert!(r.headers.is_empty());
    assert!(r.rows.is_empty());
    assert!(!r.had_jagged_rows);
}

#[test]
fn read_quoted_fields() {
    let r = read_csv(b"a,b\n\"x,y\",\"say \"\"hi\"\"\"\n", b',', None).unwrap();
    assert_eq!(r.rows, vec![vec![s("x,y"), s("say \"hi\"")]]);
}

#[test]
fn read_parse_error_on_split_characters() {
    // A non-ASCII delimiter byte cuts a character in two.
    let res = read_csv("é,ü".as_bytes(), 0xC3, None);
    assert!(matches!(res, Err(CsvError::Parse(_))));
}

#[test]
fn write_pads_short_rows() {
    let out = write_csv(
        b',',
        &[s("a"), s("b")],
        &[vec![s("1")], vec![s("2"), s("3")]],
        &TextEncoding::utf8(),
        false,
    )
    .unwrap();
    assert_eq!(out, b"a,b\n1,\n2,3\n".to_vec());
}

#[test]
fn write_refuses_rows_wider_than_header() {
    let res = write_csv(b',', &[s("a")], &[vec![s("1"), s("2")]], &TextEncoding::utf8(), false);
    assert!(matches!(res, Err(CsvError::Parse(_))));
}

#[test]
fn write_quotes_when_needed() {
    let out = write_csv(b';', &[s("x;y"), s("z")], &[], &TextEncoding::utf8(), false).unwrap();
    assert_eq!(out, b"\"x;y\";z\n".to_vec());
}

#[test]
fn write_utf8_with_bom() {
    let out = write_csv(b',', &[s("a")], &[vec![s("é")]], &TextEncoding::utf8(), true).unwrap();
    assert_eq!(out, b"\xEF\xBB\xBFa\n\xC3\xA9\n".to_vec());
}

#[test]
fn write_in_windows_1252() {
    let out = write_csv(b',', &[s("café")], &[], &enc("windows-1252"), false).unwrap();
    assert_eq!(out, b"caf\xe9\n".to_vec());
}

#[test]
fn write_in_utf16le() {
    let out = write_csv(b',', &[s("a"), s("b")], &[], &enc("UTF-16LE"), true).unwrap();
    assert_eq!(out, b"\xFF\xFEa\x00,\x00b\x00\n\x00".to_vec());
}

#[test]
fn write_in_utf16be_without_bom() {
    let out = write_csv(b',', &[s("é")], &[vec![s("\u{1F600}")]], &enc("UTF-16BE"), false).unwrap();
    assert_eq!(out, b"\x00\xE9\x00\n\xD8\x3D\xDE\x00\x00\n".to_vec());
}

#[test]
fn written_utf16_reads_back() {
    let headers = vec![s("name"), s("note")];
    let rows = vec![vec![s("x"), s("ünïcode \u{1F600}")]];
    for name in ["UTF-16LE", "UTF-16BE"] {
        let out = write_csv(b';', &headers, &rows, &enc(name), true).unwrap();
        let back = read_csv(&out, b';', None).unwrap();
        assert_eq!(back.headers, headers);
        assert_eq!(back.rows, rows);
        assert_eq!(back.encoding.name(), name);
        assert!(back.encoding_bom);
    }
}

#[test]
fn written_utf8_reads_back() {
    let headers = vec![s("name"), s("note")];
    let rows = vec![vec![s("x"), s("with, comma")], vec![s("y"), s("ünïcode")]];
    for bom in [false, true] {
        let out = write_csv(b',', &headers, &rows, &TextEncoding::utf8(), bom).unwrap();
        let back = read_csv(&out, b',', Some((TextEncoding::utf8(), bom))).unwrap();
        assert_eq!(back.headers, headers);
        assert_eq!(back.rows, rows);
        assert_eq!(back.encoding_bom, bom);
        let detected = read_csv(&out, b',', None).unwrap();
        assert_eq!(detected.headers, headers);
        assert_eq!(detected.rows, rows);
        assert!(detected.encoding.is_utf8());
        assert_eq!(detected.encoding_bom, bom);
        assert!(!detected.had_jagged_rows);
    }
}

#[test]
fn written_tricky_fields_read_back_padded() {
    let headers = vec![s(""), s("q\"uote"), s("line\r\nbreak")];
    let rows = vec![vec![s("")], vec![s(";"), s("\"\""), s("x")], vec![]];
    let out = write_csv(b';', &headers, &rows, &TextEncoding::utf8(), false).unwrap();
    let back = read_csv(&out, b';', None).unwrap();
    assert_eq!(back.headers, headers);
    assert_eq!(
        back.rows,
        vec![
            vec![s(""), s(""), s("")],
            vec![s(";"), s("\"\""), s("x")],
            vec![s(""), s(""), s("")],
        ]
    );
    assert!(!back.had_jagged_rows);
}

#[test]
fn read_with_ascii_separator_never_fails() {
    for raw in [&b"\"unterminated"[..], b"a\xff,b\n", b"\xFF\xFE\x00\xD8", b",,,\n\n\r"] {
        assert!(read_csv(raw, b',', None).is_ok());
        assert!(read_csv(raw, b'\t', Some((TextEncoding::utf8(), true))).is_ok());
    }
}

#[test]
fn detect_semicolons() {
    assert_eq!(detect_separator(b"a;b;c\n1;2;3\n"), b';');
}

#[test]
fn detect_tabs() {
    assert_eq!(detect_separator(b"a\tb\n1\t2\n"), b'\t');
}

#[test]
fn detect_empty_falls_back_to_comma() {
    assert_eq!(detect_separator(b""), b',');
    assert_eq!(detect_separator(b"\n  \n\t\n"), b',');
    assert_eq!(detect_separator(b"abc\ndef\n"), b',');
}

#[test]
fn detect_rewards_consistent_counts() {
    // '|': 1 + 1 = 2, same on every line -> 4.  ',': 1 + 2 = 3, uneven -> 3.
    assert_eq!(detect_separator(b"a|b,c\nd|e,f,g\n"), b'|');
}

#[test]
fn detect_ties_go_to_the_earlier_candidate() {
    assert_eq!(detect_separator(b"x,y;z\n"), b',');
}

#[test]
fn detect_skips_blank_lines() {
    assert_eq!(detect_separator(b"\n\n   \r\na;b\n"), b';');
}

#[test]
fn detect_samples_only_the_start() {
    let mut content = vec![b'a'; 9000];
    content.extend_from_slice(b"\nx;y\n");
    assert_eq!(detect_separator(&content), b',');
}

#[test]
fn detect_samples_only_twenty_lines() {
    let mut content = Vec::new();
    for _ in 0..20 {
        content.extend_from_slice(b"a,b\n");
    }
    content.extend_from_slice(b"1;2;3;4;5;6;7;8;9;10;11;12;13;14;15;16;17;18;19;20;21;22;23;24;25;26;27;28;29;30;31;32;33;34;35;36;37;38;39;40;41;42;43;44;45;46;47;48;49;50\n");
    assert_eq!(detect_separator(&content), b',');
}

#[test]
fn io_errors_become_io_variant() {
    let e: CsvError = std::io::Error::new(std::io::ErrorKind::NotFound, "missing").into();
    assert!(matches!(e, CsvError::Io(_)));
}

#[test]
fn checked_write_with_a_non_ascii_separator() {
    let w1252 = enc("windows-1252");
    // One column: the output is valid UTF-8 and can be re-encoded.
    let out = write_csv_checked(0xFF, &[s("café")], &[], &w1252, false).unwrap().unwrap();
    assert_eq!(out, b"caf\xe9\n".to_vec());
    // A row wider than the header is refused before any re-encoding.
    let res = write_csv_checked(0xFF, &[s("a")], &[vec![s("1"), s("2")]], &w1252, false).unwrap();
    assert!(matches!(res, Err(CsvError::Parse(_))));
    // Two columns split by 0xFF are no UTF-8: nothing to re-encode.
    assert!(write_csv_checked(0xFF, &[s("a"), s("b")], &[], &w1252, false).is_none());
    // UTF-8 output is written as it is.
    let out = write_csv_checked(0xFF, &[s("a"), s("b")], &[], &TextEncoding::utf8(), false).unwrap().unwrap();
    assert_eq!(out, b"a\xffb\n".to_vec());
    let out = write_csv(0xFF, &[s("café")], &[], &w1252, false).unwrap();
    assert_eq!(out, b"caf\xe9\n".to_vec());
}

#[test]
fn detect_separator_in_decoded_text() {
    assert_eq!(detect_separator_in_text("a|b|c\n1|2|3\n"), b'|');
    assert_eq!(detect_separator_in_text("a;b,c\n1;2\n"), b';');
    assert_eq!(detect_separator_in_text("  \n\t\n"), b',');
    assert_eq!(detect_separator_in_text("x\ty\r\nz\tw"), b'\t');
}

#[test]
fn jagged_rows_are_found() {
    let h = vec![s("a"), s("b")];
    assert!(!any_jagged(&h, &vec![vec![s("1"), s("2")]]));
    assert!(any_jagged(&h, &vec![vec![s("1"), s("2")], vec![s("3")]]));
    assert!(any_jagged(&h, &vec![vec![s("1"), s("2"), s("3")]]));
    assert!(!any_jagged(&h, &vec![]));
}
