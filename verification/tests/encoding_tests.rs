use virgola::encoding::{
    decode_as, decode_bytes, encode_output, encode_utf16, starts_with_bom, TextEncoding,
};
use virgola::text::{
    blank, bytes_after, bytes_before, chars_of, contains_chars, lowercase_chars, starts_with,
    strip_bom_char,
};

fn enc(name: &str) -> TextEncoding {
    TextEncoding::from_name(name).unwrap()
}

#[test]
fn encoding_names() {
    assert!(TextEncoding::from_name("Shift_JIS").is_some());
    assert!(TextEncoding::from_name("shift_jis").is_none());
    assert!(TextEncoding::from_name("latin1").is_none());
    assert!(TextEncoding::utf8().is_utf8());
    assert!(enc("UTF-16LE").is_utf16le());
    assert!(enc("UTF-16BE").is_utf16be());
    assert!(enc("gb18030").same_as(&enc("gb18030")));
    assert!(!enc("gb18030").same_as(&enc("GBK")));
    assert_eq!(enc("KOI8-U").clone().name(), "KOI8-U");
}

#[test]
fn decode_plain_utf8() {
    let (text, e, bom) = decode_bytes(b"a,b\n");
    assert_eq!(text, "a,b\n");
    assert!(e.is_utf8());
    assert!(!bom);
}

#[test]
fn decode_utf8_with_bom() {
    let (text, e, bom) = decode_bytes(b"\xEF\xBB\xBFa,b");
    assert_eq!(text, "a,b");
    assert!(e.is_utf8());
    assert!(bom);
}

#[test]
fn decode_detects_legacy_encodings() {
    let raw: &[u8] = b"nom,ville\nfran\xe7ais,b\xe9ziers\ncaf\xe9,na\xefve\n";
    let (text, e, bom) = decode_bytes(raw);
    let mut det = chardetng::EncodingDetector::new();
    det.feed(raw, true);
    let guess = det.guess(None, true);
    assert_eq!(e.name(), guess.name());
    assert_eq!(text, guess.decode(raw).0);
    assert!(!e.is_utf8());
    assert!(!bom);
    assert_eq!(e.name(), "windows-1252");
    assert_eq!(text, "nom,ville\nfrançais,béziers\ncafé,naïve\n");
}

#[test]
fn decode_utf16_with_bom() {
    let (text, e, bom) = decode_bytes(b"\xFF\xFEa\x00,\x00b\x00");
    assert_eq!(text, "a,b");
    assert!(e.is_utf16le());
    assert!(bom);
    let (text, e, bom) = decode_bytes(b"\xFE\xFF\x00a\x00,\x00b");
    assert_eq!(text, "a,b");
    assert!(e.is_utf16be());
    assert!(bom);
}

#[test]
fn decode_utf8_bom_with_invalid_rest() {
    // The mark decides the encoding; invalid bytes become U+FFFD.
    let (text, e, bom) = decode_bytes(b"\xEF\xBB\xBFa\xffb");
    assert_eq!(text, "a\u{FFFD}b");
    assert!(e.is_utf8());
    assert!(bom);
}

#[test]
fn decode_as_utf8_handles_bom_flag() {
    assert_eq!(decode_as(b"\xEF\xBB\xBFx", &TextEncoding::utf8(), true), "x");
    assert_eq!(decode_as(b"\xEF\xBB\xBFx", &TextEncoding::utf8(), false), "\u{FEFF}x");
}

#[test]
fn decode_as_utf8_replaces_invalid_bytes() {
    assert_eq!(decode_as(b"a\xffb", &TextEncoding::utf8(), false), "a\u{FFFD}b");
}

#[test]
fn decode_as_legacy_encoding() {
    assert_eq!(decode_as(b"caf\xe9", &enc("windows-1252"), false), "café");
    // encoding_rs sniffs a byte-order mark in front of the bytes.
    assert_eq!(decode_as(b"\xFE\xFF\x00x", &enc("windows-1252"), false), "x");
}

#[test]
fn encode_output_variants() {
    assert_eq!(encode_output(b"a,b\n", &TextEncoding::utf8(), true), b"\xEF\xBB\xBFa,b\n".to_vec());
    assert_eq!(encode_output(b"a,b\n", &TextEncoding::utf8(), false), b"a,b\n".to_vec());
    assert_eq!(encode_output(b"a", &enc("UTF-16LE"), true), b"\xFF\xFEa\x00".to_vec());
    assert_eq!(encode_output(b"a", &enc("UTF-16BE"), true), b"\xFE\xFF\x00a".to_vec());
    assert_eq!(encode_output("é".as_bytes(), &enc("UTF-16LE"), false), vec![0xE9, 0x00]);
    assert_eq!(encode_output("é".as_bytes(), &enc("windows-1252"), false), vec![0xE9]);
    assert_eq!(encode_output(b"x", &enc("windows-1252"), true), b"x".to_vec());
}

#[test]
fn text_helpers() {
    assert_eq!(strip_bom_char("\u{FEFF}abc".to_string()), "abc");
    assert_eq!(strip_bom_char("\u{FEFF}\u{FEFF}a".to_string()), "\u{FEFF}a");
    assert_eq!(strip_bom_char("abc".to_string()), "abc");
    assert_eq!(chars_of("héllo"), vec!['h', 'é', 'l', 'l', 'o']);
    assert_eq!(lowercase_chars("ÀB"), vec!['à', 'b']);
    assert!(contains_chars(&chars_of("banana"), &chars_of("nan")));
    assert!(!contains_chars(&chars_of("banana"), &chars_of("nab")));
    assert!(contains_chars(&chars_of("x"), &chars_of("")));
    assert!(blank(&chars_of(" \t\u{3000}")));
    assert!(!blank(&chars_of(" a ")));
    assert!(starts_with(b"abc", b"ab"));
    assert!(!starts_with(b"a", b"ab"));
    assert_eq!(bytes_after(b"abcd", 1), b"bcd".to_vec());
    assert_eq!(bytes_before(b"abcd", 3), b"abc".to_vec());
}

#[test]
fn utf16_code_units() {
    assert_eq!(encode_utf16("A\u{20AC}", false), vec![0x41, 0x00, 0xAC, 0x20]);
    assert_eq!(encode_utf16("A\u{20AC}", true), vec![0x00, 0x41, 0x20, 0xAC]);
    // U+10437 becomes the surrogate pair D801 DC37.
    assert_eq!(encode_utf16("\u{10437}", true), vec![0xD8, 0x01, 0xDC, 0x37]);
    assert_eq!(encode_utf16("\u{10437}", false), vec![0x01, 0xD8, 0x37, 0xDC]);
    assert_eq!(encode_utf16("", false), Vec::<u8>::new());
}

#[test]
fn byte_order_marks_per_encoding() {
    assert!(starts_with_bom(b"\xEF\xBB\xBFx", &TextEncoding::utf8()));
    assert!(!starts_with_bom(b"x", &TextEncoding::utf8()));
    assert!(starts_with_bom(b"\xFF\xFEx", &enc("UTF-16LE")));
    assert!(!starts_with_bom(b"\xFF\xFEx", &enc("UTF-16BE")));
    assert!(starts_with_bom(b"\xFE\xFFx", &enc("UTF-16BE")));
    assert!(!starts_with_bom(b"\xEF\xBB\xBFx", &enc("windows-1252")));
}
