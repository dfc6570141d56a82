//! The separators and encodings offered in the document settings, by their
//! position in the settings' drop-down lists, and validation of a custom
//! separator.
use vstd::prelude::*;
use vstd::string::StringSliceAdditionalSpecFns;
use crate::encoding::TextEncoding;

verus! {

/// Position of the "Custom…" entry in the separator list.
pub const CUSTOM_SEP_IDX: u32 = 4;

/// How many encodings the encoding list offers.
pub const ENCODING_COUNT: u32 = 7;

/// The separator at a position of the separator list: `,` `;` tab `|`, then
/// "Custom…" (no byte), and nothing beyond.
pub open spec fn separator_choice(index: int) -> Option<u8> {
    if index == 0 {
        Some(0x2Cu8)
    } else if index == 1 {
        Some(0x3Bu8)
    } else if index == 2 {
        Some(0x09u8)
    } else if index == 3 {
        Some(0x7Cu8)
    } else {
        None
    }
}

/// The first position at or after `from` whose separator is `sep`.
pub open spec fn separator_index_from(sep: u8, from: int) -> Option<int>
    decreases 5 - from,
{
    if from >= 5 {
        None
    } else if separator_choice(from) == Some(sep) {
        Some(from)
    } else {
        separator_index_from(sep, from + 1)
    }
}

/// The encoding (by name) and byte-order-mark flag at a position of the
/// encoding list.
pub open spec fn encoding_choice(index: int) -> Option<(Seq<char>, bool)> {
    if index == 0 {
        Some(("UTF-8"@, false))
    } else if index == 1 {
        Some(("UTF-8"@, true))
    } else if index == 2 {
        Some(("windows-1252"@, false))
    } else if index == 3 {
        Some(("Shift_JIS"@, false))
    } else if index == 4 {
        Some(("gb18030"@, false))
    } else if index == 5 {
        Some(("UTF-16LE"@, true))
    } else if index == 6 {
        Some(("UTF-16BE"@, true))
    } else {
        None
    }
}

/// The first position at or after `from` offering encoding `name` with the
/// given byte-order-mark flag; position 0 (UTF-8) when there is none.
pub open spec fn encoding_index_from(name: Seq<char>, bom: bool, from: int) -> int
    decreases 7 - from,
{
    if from >= 7 {
        0
    } else if encoding_choice(from) == Some((name, bom)) {
        from
    } else {
        encoding_index_from(name, bom, from + 1)
    }
}

/// The separator at position `index`; `None` for "Custom…" and beyond the
/// list.
pub fn separator_at(index: u32) -> (res: Option<u8>)
    ensures
        res == separator_choice(index as int),
{
    if index == 0 {
        Some(0x2Cu8)
    } else if index == 1 {
        Some(0x3Bu8)
    } else if index == 2 {
        Some(0x09u8)
    } else if index == 3 {
        Some(0x7Cu8)
    } else {
        None
    }
}

/// The position of a preset separator; `None` when it is not a preset and
/// needs "Custom…".
pub fn index_of_separator(sep: u8) -> (res: Option<u32>)
    ensures
        res == match separator_index_from(sep, 0) {
            Some(i) => Some(i as u32),
            None => None,
        },
{
    let mut i: u32 = 0;
    while i < 5
        invariant
            i <= 5,
            separator_index_from(sep, 0) == separator_index_from(sep, i as int),
        decreases 5 - i,
    {
        if separator_at(i) == Some(sep) {
            return Some(i);
        }
        i = i + 1;
    }
    None
}

/// The encoding and byte-order-mark flag at position `index`.
pub fn encoding_at(index: u32) -> (res: (TextEncoding, bool))
    requires
        index < ENCODING_COUNT,
    ensures
        encoding_choice(index as int) == Some((res.0@, res.1)),
{
    let (name, bom) = if index == 0 {
        ("UTF-8", false)
    } else if index == 1 {
        ("UTF-8", true)
    } else if index == 2 {
        ("windows-1252", false)
    } else if index == 3 {
        ("Shift_JIS", false)
    } else if index == 4 {
        ("gb18030", false)
    } else if index == 5 {
        ("UTF-16LE", true)
    } else {
        ("UTF-16BE", true)
    };
    (TextEncoding::from_name(name).unwrap(), bom)
}

/// The position offering `enc` with byte-order-mark flag `bom`, or 0
/// (UTF-8) when the list does not offer it.
pub fn index_of_encoding(enc: &TextEncoding, bom: bool) -> (res: u32)
    ensures
        res as int == encoding_index_from(enc@, bom, 0),
{
    let mut i: u32 = 0;
    while i < 7
        invariant
            i <= 7,
            encoding_index_from(enc@, bom, 0) == encoding_index_from(enc@, bom, i as int),
        decreases 7 - i,
    {
        let (e, b) = encoding_at(i);
        if e.same_as(enc) && b == bom {
            return i;
        }
        i = i + 1;
    }
    0
}

/// What a custom separator entry accepts: the first byte of the text, if
/// it is a printable ASCII character.
pub open spec fn custom_separator_of(bytes: Seq<u8>) -> Option<u8> {
    if bytes.len() > 0 && 32 <= bytes[0] < 127 {
        Some(bytes[0])
    } else {
        None
    }
}

/// Validate the text typed as a custom separator.  `None` asks the user to
/// correct it (nothing typed, or not printable ASCII).
pub fn custom_separator(text: &str) -> (res: Option<u8>)
    ensures
        res == custom_separator_of(text.spec_bytes()),
{
    let bytes = text.as_bytes();
    if bytes.len() == 0 {
        return None;
    }
    let byte = bytes[0];
    if byte < 32 || byte >= 127 {
        return None;
    }
    Some(byte)
}

/// Each position of the separator list gives the separator its label
/// names: Comma, Semicolon, Tab, Pipe, then "Custom…" with no byte, and
/// nothing beyond.
pub proof fn law_separator_list_positions(i: int)
    ensures
        separator_choice(0) == Some(0x2Cu8),
        separator_choice(1) == Some(0x3Bu8),
        separator_choice(2) == Some(0x09u8),
        separator_choice(3) == Some(0x7Cu8),
        CUSTOM_SEP_IDX == 4,
        (i < 0 || i >= 4) ==> separator_choice(i) is None,
{
}

/// Each position of the encoding list gives the encoding its label names:
/// UTF-8, UTF-8 with BOM, Windows-1252, Shift-JIS, GB18030, UTF-16 LE and
/// UTF-16 BE (both with BOM), and nothing beyond.
pub proof fn law_encoding_list_positions(i: int)
    ensures
        encoding_choice(0) == Some(("UTF-8"@, false)),
        encoding_choice(1) == Some(("UTF-8"@, true)),
        encoding_choice(2) == Some(("windows-1252"@, false)),
        encoding_choice(3) == Some(("Shift_JIS"@, false)),
        encoding_choice(4) == Some(("gb18030"@, false)),
        encoding_choice(5) == Some(("UTF-16LE"@, true)),
        encoding_choice(6) == Some(("UTF-16BE"@, true)),
        ENCODING_COUNT == 7,
        (i < 0 || i >= 7) ==> encoding_choice(i) is None,
{
}

/// Every preset separator is found again at its own position.
pub proof fn law_separator_index_round_trip(i: int)
    requires
        0 <= i < CUSTOM_SEP_IDX,
    ensures
        separator_choice(i) is Some,
        separator_index_from(separator_choice(i)->Some_0, 0) == Some(i),
{
    reveal_with_fuel(separator_index_from, 6);
}

/// A separator found in the list is the one at the position reported, and
/// one not found is no preset.
pub proof fn law_separator_index_finds_preset(sep: u8)
    ensures
        separator_index_from(sep, 0) matches Some(i) ==> separator_choice(i) == Some(sep),
        separator_index_from(sep, 0) is None ==> forall|i: int| separator_choice(i) != Some(sep),
{
    reveal_with_fuel(separator_index_from, 6);
}

/// Every preset encoding is found again at its own position: the presets
/// are pairwise different.
pub proof fn law_encoding_index_round_trip(i: int)
    requires
        0 <= i < ENCODING_COUNT,
    ensures
        encoding_choice(i) is Some,
        encoding_index_from(encoding_choice(i)->Some_0.0, encoding_choice(i)->Some_0.1, 0) == i,
{
    reveal_with_fuel(encoding_index_from, 8);
    reveal_strlit("UTF-8");
    reveal_strlit("windows-1252");
    reveal_strlit("Shift_JIS");
    reveal_strlit("gb18030");
    reveal_strlit("UTF-16LE");
    reveal_strlit("UTF-16BE");
    assert("UTF-8"@.len() == 5);
    assert("windows-1252"@.len() == 12);
    assert("Shift_JIS"@.len() == 9);
    assert("gb18030"@.len() == 7);
    assert("UTF-16LE"@[6] != "UTF-16BE"@[6]);
    assert("UTF-16LE"@ != "UTF-16BE"@);
    assert("UTF-8"@ != "windows-1252"@);
    assert("UTF-8"@ != "Shift_JIS"@);
    assert("UTF-8"@ != "gb18030"@);
    assert("UTF-8"@ != "UTF-16LE"@);
    assert("UTF-8"@ != "UTF-16BE"@);
    assert("windows-1252"@ != "Shift_JIS"@);
    assert("windows-1252"@ != "gb18030"@);
    assert("windows-1252"@ != "UTF-16LE"@);
    assert("windows-1252"@ != "UTF-16BE"@);
    assert("Shift_JIS"@ != "gb18030"@);
    assert("Shift_JIS"@ != "UTF-16LE"@);
    assert("Shift_JIS"@ != "UTF-16BE"@);
    assert("gb18030"@ != "UTF-16LE"@);
    assert("gb18030"@ != "UTF-16BE"@);
}

/// An accepted custom separator is a printable ASCII byte.
pub proof fn law_custom_separator_is_printable_ascii(bytes: Seq<u8>)
    ensures
        custom_separator_of(bytes) matches Some(b) ==> 32 <= b < 127,
{
}

} // verus!
