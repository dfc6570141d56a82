//! Text encodings: which encoding a file is in, how its bytes become text,
//! and how text becomes bytes again.
//!
//! An encoding is identified by its canonical name in the Encoding Standard
//! (the names `encoding_rs` gives its encodings).
use vstd::prelude::*;
use vstd::utf8::*;
use crate::text::{
    bytes_after, bytes_copy, chars_of, has_prefix, lossy_utf8, starts_with, strip_bom_char, utf8_lossy,
    utf8_str, without_bom_char,
};

verus! {

/// The canonical names of the encodings of the Encoding Standard.
pub open spec fn is_encoding_name(n: Seq<char>) -> bool {
    ||| n == "UTF-8"@
    ||| n == "IBM866"@
    ||| n == "ISO-8859-2"@
    ||| n == "ISO-8859-3"@
    ||| n == "ISO-8859-4"@
    ||| n == "ISO-8859-5"@
    ||| n == "ISO-8859-6"@
    ||| n == "ISO-8859-7"@
    ||| n == "ISO-8859-8"@
    ||| n == "ISO-8859-8-I"@
    ||| n == "ISO-8859-10"@
    ||| n == "ISO-8859-13"@
    ||| n == "ISO-8859-14"@
    ||| n == "ISO-8859-15"@
    ||| n == "ISO-8859-16"@
    ||| n == "KOI8-R"@
    ||| n == "KOI8-U"@
    ||| n == "macintosh"@
    ||| n == "windows-874"@
    ||| n == "windows-1250"@
    ||| n == "windows-1251"@
    ||| n == "windows-1252"@
    ||| n == "windows-1253"@
    ||| n == "windows-1254"@
    ||| n == "windows-1255"@
    ||| n == "windows-1256"@
    ||| n == "windows-1257"@
    ||| n == "windows-1258"@
    ||| n == "x-mac-cyrillic"@
    ||| n == "GBK"@
    ||| n == "gb18030"@
    ||| n == "Big5"@
    ||| n == "EUC-JP"@
    ||| n == "ISO-2022-JP"@
    ||| n == "Shift_JIS"@
    ||| n == "EUC-KR"@
    ||| n == "replacement"@
    ||| n == "UTF-16BE"@
    ||| n == "UTF-16LE"@
    ||| n == "x-user-defined"@
}

pub open spec fn utf8_name() -> Seq<char> {
    "UTF-8"@
}

pub open spec fn utf16le_name() -> Seq<char> {
    "UTF-16LE"@
}

pub open spec fn utf16be_name() -> Seq<char> {
    "UTF-16BE"@
}

/// A text encoding, held by its canonical name.
#[derive(Debug)]
pub struct TextEncoding {
    name: String,
}

impl View for TextEncoding {
    type V = Seq<char>;

    closed spec fn view(&self) -> Seq<char> {
        self.name@
    }
}

impl TextEncoding {
    #[verifier::type_invariant]
    spec fn known(self) -> bool {
        is_encoding_name(self.name@)
    }

    fn named(name: &str) -> (res: TextEncoding)
        requires
            is_encoding_name(name@),
        ensures
            res@ == name@,
    {
        TextEncoding { name: String::from_str(name) }
    }

    /// UTF-8.
    pub fn utf8() -> (res: TextEncoding)
        ensures
            res@ == utf8_name(),
    {
        TextEncoding::named("UTF-8")
    }

    /// The encoding with the canonical name `name`, if there is one.
    pub fn from_name(name: &str) -> (res: Option<TextEncoding>)
        ensures
            res is Some <==> is_encoding_name(name@),
            res matches Some(e) ==> e@ == name@,
    {
        let candidates = [
            "UTF-8", "IBM866", "ISO-8859-2", "ISO-8859-3", "ISO-8859-4", "ISO-8859-5",
            "ISO-8859-6", "ISO-8859-7", "ISO-8859-8", "ISO-8859-8-I", "ISO-8859-10",
            "ISO-8859-13", "ISO-8859-14", "ISO-8859-15", "ISO-8859-16", "KOI8-R", "KOI8-U",
            "macintosh", "windows-874", "windows-1250", "windows-1251", "windows-1252",
            "windows-1253", "windows-1254", "windows-1255", "windows-1256", "windows-1257",
            "windows-1258", "x-mac-cyrillic", "GBK", "gb18030", "Big5", "EUC-JP", "ISO-2022-JP",
            "Shift_JIS", "EUC-KR", "replacement", "UTF-16BE", "UTF-16LE", "x-user-defined",
        ];
        let ghost names = candidates@.map_values(|c: &str| c@);
        assert(forall|n: Seq<char>| is_encoding_name(n) <==> names.contains(n)) by {
            assert forall|n: Seq<char>| is_encoding_name(n) implies names.contains(n) by {
                if n == "UTF-8"@ { assert(names[0] == n); }
                else if n == "IBM866"@ { assert(names[1] == n); }
                else if n == "ISO-8859-2"@ { assert(names[2] == n); }
                else if n == "ISO-8859-3"@ { assert(names[3] == n); }
                else if n == "ISO-8859-4"@ { assert(names[4] == n); }
                else if n == "ISO-8859-5"@ { assert(names[5] == n); }
                else if n == "ISO-8859-6"@ { assert(names[6] == n); }
                else if n == "ISO-8859-7"@ { assert(names[7] == n); }
                else if n == "ISO-8859-8"@ { assert(names[8] == n); }
                else if n == "ISO-8859-8-I"@ { assert(names[9] == n); }
                else if n == "ISO-8859-10"@ { assert(names[10] == n); }
                else if n == "ISO-8859-13"@ { assert(names[11] == n); }
                else if n == "ISO-8859-14"@ { assert(names[12] == n); }
                else if n == "ISO-8859-15"@ { assert(names[13] == n); }
                else if n == "ISO-8859-16"@ { assert(names[14] == n); }
                else if n == "KOI8-R"@ { assert(names[15] == n); }
                else if n == "KOI8-U"@ { assert(names[16] == n); }
                else if n == "macintosh"@ { assert(names[17] == n); }
                else if n == "windows-874"@ { assert(names[18] == n); }
                else if n == "windows-1250"@ { assert(names[19] == n); }
                else if n == "windows-1251"@ { assert(names[20] == n); }
                else if n == "windows-1252"@ { assert(names[21] == n); }
                else if n == "windows-1253"@ { assert(names[22] == n); }
                else if n == "windows-1254"@ { assert(names[23] == n); }
                else if n == "windows-1255"@ { assert(names[24] == n); }
                else if n == "windows-1256"@ { assert(names[25] == n); }
                else if n == "windows-1257"@ { assert(names[26] == n); }
                else if n == "windows-1258"@ { assert(names[27] == n); }
                else if n == "x-mac-cyrillic"@ { assert(names[28] == n); }
                else if n == "GBK"@ { assert(names[29] == n); }
                else if n == "gb18030"@ { assert(names[30] == n); }
                else if n == "Big5"@ { assert(names[31] == n); }
                else if n == "EUC-JP"@ { assert(names[32] == n); }
                else if n == "ISO-2022-JP"@ { assert(names[33] == n); }
                else if n == "Shift_JIS"@ { assert(names[34] == n); }
                else if n == "EUC-KR"@ { assert(names[35] == n); }
                else if n == "replacement"@ { assert(names[36] == n); }
                else if n == "UTF-16BE"@ { assert(names[37] == n); }
                else if n == "UTF-16LE"@ { assert(names[38] == n); }
                else { assert(names[39] == n); }
            }
        }
        let wanted = String::from_str(name);
        let mut i: usize = 0;
        while i < candidates.len()
            invariant
                i <= candidates@.len(),
                names == candidates@.map_values(|c: &str| c@),
                wanted@ == name@,
                forall|n: Seq<char>| is_encoding_name(n) <==> names.contains(n),
                forall|j: int| 0 <= j < i ==> names[j] != name@,
            decreases candidates.len() - i,
        {
            let c = String::from_str(candidates[i]);
            if c == wanted {
                assert(names[i as int] == name@);
                return Some(TextEncoding { name: c });
            }
            i = i + 1;
        }
        None
    }

    /// The canonical name of this encoding.
    pub fn name(&self) -> (res: &str)
        ensures
            res@ == self@,
            is_encoding_name(res@),
    {
        proof {
            use_type_invariant(self);
        }
        self.name.as_str()
    }

    /// `true` when this is UTF-8.
    pub fn is_utf8(&self) -> (res: bool)
        ensures
            res == (self@ == utf8_name()),
    {
        self.name == String::from_str("UTF-8")
    }

    /// `true` when this is UTF-16LE.
    pub fn is_utf16le(&self) -> (res: bool)
        ensures
            res == (self@ == utf16le_name()),
    {
        self.name == String::from_str("UTF-16LE")
    }

    /// `true` when this is UTF-16BE.
    pub fn is_utf16be(&self) -> (res: bool)
        ensures
            res == (self@ == utf16be_name()),
    {
        self.name == String::from_str("UTF-16BE")
    }

    /// `true` when both name the same encoding.
    pub fn same_as(&self, other: &TextEncoding) -> (res: bool)
        ensures
            res == (self@ == other@),
    {
        self.name == other.name
    }
}

impl Clone for TextEncoding {
    fn clone(&self) -> (res: Self)
        ensures
            res@ == self@,
    {
        proof {
            use_type_invariant(self);
        }
        TextEncoding { name: self.name.clone() }
    }
}

/// What `chardetng` guesses for `raw`, as the name of the guessed encoding.
pub uninterp spec fn chardet_guess(raw: Seq<u8>) -> Seq<char>;

/// What `encoding_rs`'s `Encoding::decode` makes of `raw` for the encoding
/// named `name`.
pub uninterp spec fn encoding_decode(name: Seq<char>, raw: Seq<u8>) -> Seq<char>;

/// What `encoding_rs`'s `Encoding::encode` makes of `text` for the encoding
/// named `name`.
pub uninterp spec fn encoding_encode(name: Seq<char>, text: Seq<char>) -> Seq<u8>;

/// Runs `chardetng::EncodingDetector` on all of `raw` (`new`, `feed` with
/// `last = true`, then `guess(None, true)`) and returns the guessed
/// encoding's name, named `chardet_guess`.  `guess` returns one of
/// `encoding_rs`'s encodings, so the name is a canonical one.
#[verifier::external_body]
fn guess_encoding(raw: &[u8]) -> (res: TextEncoding)
    ensures
        res@ == chardet_guess(raw@),
        is_encoding_name(res@),
{
    let mut det = chardetng::EncodingDetector::new();
    det.feed(raw, true);
    TextEncoding { name: det.guess(None, true).name().to_string() }
}

/// Looks the encoding up with `encoding_rs::Encoding::for_label` (every
/// canonical name is also a label) and calls its `decode` on `raw`; the text
/// is named `encoding_decode`.  `decode` sniffs a byte-order mark first
/// (`Encoding::for_bom`): a UTF-8, UTF-16LE or UTF-16BE mark decides the
/// encoding actually used, which `decode` hands back second and which is
/// returned here; without a mark it is `enc` itself.
#[verifier::external_body]
fn decode_with(enc: &TextEncoding, raw: &[u8]) -> (res: (String, TextEncoding))
    requires
        is_encoding_name(enc@),
    ensures
        res.0@ == encoding_decode(enc@, raw@),
        res.1@ == match sniffed_encoding(raw@) {
            Some(n) => n,
            None => enc@,
        },
{
    let e = encoding_rs::Encoding::for_label(enc.name.as_bytes()).unwrap();
    let (text, used, _) = e.decode(raw);
    (text.into_owned(), TextEncoding { name: used.name().to_string() })
}

/// Looks the encoding up with `encoding_rs::Encoding::for_label` and calls
/// its `encode` on `text`; the bytes are named `encoding_encode`.
#[verifier::external_body]
fn encode_with(enc: &TextEncoding, text: &str) -> (res: Vec<u8>)
    requires
        is_encoding_name(enc@),
    ensures
        res@ == encoding_encode(enc@, text@),
{
    let e = encoding_rs::Encoding::for_label(enc.name.as_bytes()).unwrap();
    e.encode(text).0.into_owned()
}

pub open spec fn utf8_bom() -> Seq<u8> {
    seq![0xEFu8, 0xBBu8, 0xBFu8]
}

pub open spec fn utf16le_bom() -> Seq<u8> {
    seq![0xFFu8, 0xFEu8]
}

pub open spec fn utf16be_bom() -> Seq<u8> {
    seq![0xFEu8, 0xFFu8]
}

/// The encoding a byte-order mark at the start of `raw` announces, if it
/// starts with one (UTF-8 `EF BB BF`, UTF-16LE `FF FE`, UTF-16BE `FE FF`).
pub open spec fn sniffed_encoding(raw: Seq<u8>) -> Option<Seq<char>> {
    if has_prefix(raw, utf8_bom()) {
        Some(utf8_name())
    } else if has_prefix(raw, utf16le_bom()) {
        Some(utf16le_name())
    } else if has_prefix(raw, utf16be_bom()) {
        Some(utf16be_name())
    } else {
        None
    }
}

/// `raw` starts with the byte-order mark of the encoding named `name`.
pub open spec fn starts_with_bom_of(raw: Seq<u8>, name: Seq<char>) -> bool {
    if name == utf8_name() {
        has_prefix(raw, utf8_bom())
    } else if name == utf16le_name() {
        has_prefix(raw, utf16le_bom())
    } else if name == utf16be_name() {
        has_prefix(raw, utf16be_bom())
    } else {
        false
    }
}

/// Automatic decoding of a file's bytes: the text, the name of the encoding
/// it was decoded with, and whether the file began with that encoding's
/// byte-order mark.  Valid UTF-8 (after an optional UTF-8 mark) is UTF-8;
/// otherwise a byte-order mark decides the encoding, and without one the
/// detector's guess does.
pub open spec fn auto_decoded(raw: Seq<u8>) -> (Seq<char>, Seq<char>, bool) {
    if has_prefix(raw, utf8_bom()) && valid_utf8(raw.skip(3)) {
        (decode_utf8(raw.skip(3)), utf8_name(), true)
    } else if valid_utf8(raw) {
        (decode_utf8(raw), utf8_name(), false)
    } else {
        let guess = chardet_guess(raw);
        (
            without_bom_char(encoding_decode(guess, raw)),
            match sniffed_encoding(raw) {
                Some(n) => n,
                None => guess,
            },
            sniffed_encoding(raw) is Some,
        )
    }
}

/// Decoding of a file's bytes in an encoding the user chose.
pub open spec fn decoded_as(raw: Seq<u8>, name: Seq<char>, bom: bool) -> Seq<char> {
    if name == utf8_name() {
        let payload = if bom && has_prefix(raw, utf8_bom()) {
            raw.skip(3)
        } else {
            raw
        };
        if valid_utf8(payload) {
            decode_utf8(payload)
        } else {
            lossy_utf8(payload)
        }
    } else {
        without_bom_char(encoding_decode(name, raw))
    }
}

/// The byte-order mark written in front of a file saved in `name`.
pub open spec fn bom_bytes(name: Seq<char>, bom: bool) -> Seq<u8> {
    if !bom {
        seq![]
    } else if name == utf8_name() {
        utf8_bom()
    } else if name == utf16le_name() {
        utf16le_bom()
    } else if name == utf16be_name() {
        utf16be_bom()
    } else {
        seq![]
    }
}

/// The two bytes of the UTF-16 code unit `u`, in the order the byte order
/// asks for.
pub open spec fn unit_bytes(u: int, big_endian: bool) -> Seq<u8> {
    if big_endian {
        seq![(u / 256) as u8, (u % 256) as u8]
    } else {
        seq![(u % 256) as u8, (u / 256) as u8]
    }
}

/// The UTF-16 encoding of `c`: one code unit below U+10000, otherwise a
/// surrogate pair.
pub open spec fn char_utf16(c: char, big_endian: bool) -> Seq<u8> {
    let v = c as u32;
    if v < 0x10000 {
        unit_bytes(v as int, big_endian)
    } else {
        unit_bytes(0xD800 + (v - 0x10000) / 0x400, big_endian) + unit_bytes(
            0xDC00 + (v - 0x10000) % 0x400,
            big_endian,
        )
    }
}

/// The UTF-16 encoding of `text`, without byte-order mark.
pub open spec fn utf16_bytes(text: Seq<char>, big_endian: bool) -> Seq<u8>
    decreases text.len(),
{
    if text.len() == 0 {
        seq![]
    } else {
        utf16_bytes(text.drop_last(), big_endian) + char_utf16(text.last(), big_endian)
    }
}

/// The code unit held by two bytes in the given byte order.
pub open spec fn unit_of(b0: u8, b1: u8, big_endian: bool) -> int {
    if big_endian {
        b0 * 256 + b1
    } else {
        b1 * 256 + b0
    }
}

/// A character's UTF-16 bytes decode back to it: below U+10000 they are
/// one code unit equal to the character, above it a high surrogate
/// (D800–DBFF) and a low surrogate (DC00–DFFF) that together give the
/// character back.
pub proof fn law_utf16_units_decode_back(c: char, big_endian: bool)
    ensures
        ({
            let b = char_utf16(c, big_endian);
            let v = c as u32;
            &&& v < 0x10000 ==> b.len() == 2 && unit_of(b[0], b[1], big_endian) == v
            &&& v >= 0x10000 ==> {
                let hi = unit_of(b[0], b[1], big_endian);
                let lo = unit_of(b[2], b[3], big_endian);
                &&& b.len() == 4
                &&& 0xD800 <= hi < 0xDC00
                &&& 0xDC00 <= lo < 0xE000
                &&& (hi - 0xD800) * 0x400 + (lo - 0xDC00) + 0x10000 == v
            }
        }),
{
    char_is_scalar(c);
    let v = c as u32;
    if v >= 0x10000 {
        let w = v - 0x10000;
        assert(w < 0x100000);
        assert(0 <= w / 0x400 < 0x400 && w % 0x400 < 0x400 && (w / 0x400) * 0x400 + w % 0x400 == w)
            by (nonlinear_arith)
            requires 0 <= w < 0x100000;
    }
}

/// UTF-16 encodes text character by character: the empty text gives no
/// bytes, one character gives its own code units, and the bytes of two
/// texts put together are the bytes of each, in order.
pub proof fn law_utf16_bytes_concatenate(s: Seq<char>, t: Seq<char>, c: char, big_endian: bool)
    ensures
        utf16_bytes(Seq::<char>::empty(), big_endian) == Seq::<u8>::empty(),
        utf16_bytes(seq![c], big_endian) == char_utf16(c, big_endian),
        utf16_bytes(s + t, big_endian) == utf16_bytes(s, big_endian) + utf16_bytes(t, big_endian),
    decreases t.len(),
{
    assert(utf16_bytes(Seq::<char>::empty(), big_endian) == Seq::<u8>::empty());
    assert(seq![c].drop_last() =~= Seq::<char>::empty());
    assert(seq![c].last() == c);
    assert(Seq::<u8>::empty() + char_utf16(c, big_endian) =~= char_utf16(c, big_endian));
    assert(utf16_bytes(seq![c], big_endian) == utf16_bytes(seq![c].drop_last(), big_endian) + char_utf16(
        c,
        big_endian,
    ));
    if t.len() == 0 {
        assert(s + t =~= s);
        assert(utf16_bytes(s, big_endian) + Seq::<u8>::empty() =~= utf16_bytes(s, big_endian));
    } else {
        law_utf16_bytes_concatenate(s, t.drop_last(), c, big_endian);
        assert((s + t).drop_last() =~= s + t.drop_last());
        assert((s + t).last() == t.last());
        assert(utf16_bytes(s, big_endian) + utf16_bytes(t.drop_last(), big_endian) + char_utf16(t.last(), big_endian)
            =~= utf16_bytes(s, big_endian) + (utf16_bytes(t.drop_last(), big_endian) + char_utf16(t.last(), big_endian)));
    }
}

/// The bytes written for UTF-8 CSV output `utf8` in encoding `name`.
pub open spec fn encoded_output(utf8: Seq<u8>, name: Seq<char>, bom: bool) -> Seq<u8> {
    if name == utf8_name() {
        bom_bytes(name, bom) + utf8
    } else if name == utf16le_name() {
        bom_bytes(name, bom) + utf16_bytes(decode_utf8(utf8), false)
    } else if name == utf16be_name() {
        bom_bytes(name, bom) + utf16_bytes(decode_utf8(utf8), true)
    } else {
        bom_bytes(name, bom) + encoding_encode(name, decode_utf8(utf8))
    }
}

fn push_unit(out: &mut Vec<u8>, u: u32, big_endian: bool)
    requires
        u < 0x10000,
    ensures
        final(out)@ == old(out)@ + unit_bytes(u as int, big_endian),
{
    let hi = (u / 256) as u8;
    let lo = (u % 256) as u8;
    if big_endian {
        out.push(hi);
        out.push(lo);
    } else {
        out.push(lo);
        out.push(hi);
    }
}

/// Encode `text` as UTF-16 code units, two bytes each, little- or big-endian.
pub fn encode_utf16(text: &str, big_endian: bool) -> (res: Vec<u8>)
    ensures
        res@ == utf16_bytes(text@, big_endian),
{
    let chars = chars_of(text);
    let mut out: Vec<u8> = Vec::new();
    let mut k: usize = 0;
    while k < chars.len()
        invariant
            chars@ == text@,
            k <= chars.len(),
            out@ == utf16_bytes(text@.take(k as int), big_endian),
        decreases chars.len() - k,
    {
        let c = chars[k];
        let ghost before = out@;
        let v = c as u32;
        proof {
            char_is_scalar(c);
        }
        if v < 0x10000 {
            push_unit(&mut out, v, big_endian);
        } else {
            let w = v - 0x10000;
            push_unit(&mut out, 0xD800 + w / 0x400, big_endian);
            push_unit(&mut out, 0xDC00 + w % 0x400, big_endian);
        }
        proof {
            let s = text@.take(k + 1);
            assert(s.drop_last() =~= text@.take(k as int));
            assert(s.last() == c);
            assert(out@ =~= before + char_utf16(c, big_endian));
        }
        k = k + 1;
    }
    assert(text@.take(text@.len() as int) =~= text@);
    out
}

/// Detect the encoding of `raw`, decode it, and report the encoding it was
/// decoded with and whether the file began with that encoding's byte-order
/// mark.  Valid UTF-8 (after an optional UTF-8 byte-order mark) is taken as
/// UTF-8; anything else goes to the detector and is decoded in the guessed
/// encoding, unless a byte-order mark names the encoding.
pub fn decode_bytes(raw: &[u8]) -> (res: (String, TextEncoding, bool))
    ensures
        (res.0@, res.1@, res.2) == auto_decoded(raw@),
{
    if starts_with(raw, &[0xEFu8, 0xBBu8, 0xBFu8]) {
        let rest = bytes_after(raw, 3);
        if let Some(s) = utf8_str(rest.as_slice()) {
            return (String::from_str(s), TextEncoding::utf8(), true);
        }
    }
    if let Some(s) = utf8_str(raw) {
        return (String::from_str(s), TextEncoding::utf8(), false);
    }
    let guess = guess_encoding(raw);
    let had_bom = starts_with(raw, &[0xEFu8, 0xBBu8, 0xBFu8]) || starts_with(raw, &[0xFFu8, 0xFEu8])
        || starts_with(raw, &[0xFEu8, 0xFFu8]);
    let (decoded, used) = decode_with(&guess, raw);
    (strip_bom_char(decoded), used, had_bom)
}

/// `true` when `raw` starts with the byte-order mark of `enc` (only UTF-8,
/// UTF-16LE and UTF-16BE have one).
pub fn starts_with_bom(raw: &[u8], enc: &TextEncoding) -> (res: bool)
    ensures
        res == starts_with_bom_of(raw@, enc@),
{
    if enc.is_utf8() {
        starts_with(raw, &[0xEFu8, 0xBBu8, 0xBFu8])
    } else if enc.is_utf16le() {
        starts_with(raw, &[0xFFu8, 0xFEu8])
    } else if enc.is_utf16be() {
        starts_with(raw, &[0xFEu8, 0xFFu8])
    } else {
        false
    }
}

/// Decode `raw` in the encoding the user chose.  For UTF-8 a leading
/// byte-order mark is dropped when `bom` is set, and invalid bytes are
/// replaced rather than refused.  Other encodings go through `encoding_rs`.
pub fn decode_as(raw: &[u8], enc: &TextEncoding, bom: bool) -> (res: String)
    ensures
        res@ == decoded_as(raw@, enc@, bom),
{
    proof {
        use_type_invariant(enc);
    }
    if enc.is_utf8() {
        let payload = if bom && starts_with(raw, &[0xEFu8, 0xBBu8, 0xBFu8]) {
            bytes_after(raw, 3)
        } else {
            bytes_copy(raw)
        };
        return match utf8_str(payload.as_slice()) {
            Some(s) => String::from_str(s),
            None => utf8_lossy(payload.as_slice()),
        };
    }
    let (decoded, _) = decode_with(enc, raw);
    strip_bom_char(decoded)
}

/// Turn UTF-8 CSV output into the bytes of a file in `encoding`, with the
/// encoding's byte-order mark in front when `bom` is set.  UTF-16 is
/// written as code units in its byte order; other encodings go through
/// `encoding_rs`.
pub fn encode_output(utf8: &[u8], encoding: &TextEncoding, bom: bool) -> (res: Vec<u8>)
    requires
        encoding@ == utf8_name() || valid_utf8(utf8@),
    ensures
        res@ == encoded_output(utf8@, encoding@, bom),
{
    proof {
        use_type_invariant(encoding);
    }
    let mut out: Vec<u8> = Vec::new();
    if bom {
        if encoding.is_utf8() {
            out.push(0xEFu8);
            out.push(0xBBu8);
            out.push(0xBFu8);
        } else if encoding.is_utf16le() {
            out.push(0xFFu8);
            out.push(0xFEu8);
        } else if encoding.is_utf16be() {
            out.push(0xFEu8);
            out.push(0xFFu8);
        }
    }
    assert(out@ =~= bom_bytes(encoding@, bom));
    if encoding.is_utf8() {
        let mut tail = bytes_copy(utf8);
        out.append(&mut tail);
    } else {
        let text = utf8_str(utf8).unwrap();
        let mut encoded = if encoding.is_utf16le() {
            encode_utf16(text, false)
        } else if encoding.is_utf16be() {
            encode_utf16(text, true)
        } else {
            encode_with(encoding, text)
        };
        out.append(&mut encoded);
    }
    out
}

/// A document saved in UTF-8 reads back as the text written: both when the
/// user's choice of UTF-8 (with or without byte-order mark) is kept, and
/// under detection when a byte-order mark was written.  When the text does
/// not itself begin with U+FEFF, detection also reads a document saved
/// without mark back, and the mark is reported exactly when it was written.
pub proof fn law_utf8_output_reads_back(utf8: Seq<u8>, bom: bool)
    requires
        valid_utf8(utf8),
    ensures
        decoded_as(encoded_output(utf8, utf8_name(), bom), utf8_name(), bom) == decode_utf8(utf8),
        auto_decoded(encoded_output(utf8, utf8_name(), true)) == (decode_utf8(utf8), utf8_name(), true),
        !has_prefix(utf8, utf8_bom()) ==> auto_decoded(encoded_output(utf8, utf8_name(), false)) == (
            decode_utf8(utf8),
            utf8_name(),
            false,
        ),
        !has_prefix(utf8, utf8_bom()) ==> starts_with_bom_of(
            encoded_output(utf8, utf8_name(), bom),
            utf8_name(),
        ) == bom,
{
    let with_bom = utf8_bom() + utf8;
    assert(with_bom.take(3) =~= utf8_bom());
    assert(with_bom.skip(3) =~= utf8);
    assert(encoded_output(utf8, utf8_name(), true) == with_bom);
    assert(encoded_output(utf8, utf8_name(), false) =~= utf8);
}

} // verus!
