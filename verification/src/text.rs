//! Character-level helpers: UTF-8 validation and decoding, lower-casing,
//! substring search, Unicode white space and byte-order-mark handling.
use vstd::prelude::*;
use vstd::utf8::*;

verus! {

/// The byte-order mark as a character (U+FEFF).
pub open spec fn bom_char() -> char {
    '\u{FEFF}'
}

/// `s` with one leading U+FEFF removed, if it starts with one.
pub open spec fn without_bom_char(s: Seq<char>) -> Seq<char> {
    if s.len() > 0 && s[0] == bom_char() {
        s.skip(1)
    } else {
        s
    }
}

/// `true` when `t` occurs as a contiguous run inside `s`.
pub open spec fn has_infix(s: Seq<char>, t: Seq<char>) -> bool {
    exists|i: int| 0 <= i && i + t.len() <= s.len() && #[trigger] s.subrange(i, i + t.len()) == t
}

/// The Unicode `White_Space` property, which `char::is_whitespace` and
/// `str::trim` follow.
pub open spec fn is_white_space(c: char) -> bool {
    ||| '\u{9}' <= c <= '\u{D}'
    ||| c == ' '
    ||| c == '\u{85}'
    ||| c == '\u{A0}'
    ||| c == '\u{1680}'
    ||| '\u{2000}' <= c <= '\u{200A}'
    ||| c == '\u{2028}'
    ||| c == '\u{2029}'
    ||| c == '\u{202F}'
    ||| c == '\u{205F}'
    ||| c == '\u{3000}'
}

/// `true` when every character of `s` is white space (so `s.trim()` is empty).
pub open spec fn is_blank(s: Seq<char>) -> bool {
    forall|i: int| 0 <= i < s.len() ==> is_white_space(#[trigger] s[i])
}

/// What `String::from_utf8_lossy` makes of `bytes`.
pub uninterp spec fn lossy_utf8(bytes: Seq<u8>) -> Seq<char>;

/// What `str::to_lowercase` makes of `s`.
pub uninterp spec fn lowercase(s: Seq<char>) -> Seq<char>;

/// Calls `std::str::from_utf8`.  Its documentation promises `Ok` exactly for
/// valid UTF-8, and then a string holding the decoded characters.
#[verifier::external_body]
pub(crate) fn utf8_str(bytes: &[u8]) -> (res: Option<&str>)
    ensures
        res is Some <==> valid_utf8(bytes@),
        res matches Some(s) ==> s@ == decode_utf8(bytes@),
{
    std::str::from_utf8(bytes).ok()
}

/// Calls `String::from_utf8_lossy`.  The result is named `lossy_utf8`; the
/// documentation adds that valid UTF-8 comes back unchanged.
#[verifier::external_body]
pub(crate) fn utf8_lossy(bytes: &[u8]) -> (res: String)
    ensures
        res@ == lossy_utf8(bytes@),
        valid_utf8(bytes@) ==> res@ == decode_utf8(bytes@),
{
    String::from_utf8_lossy(bytes).into_owned()
}

/// Calls `str::to_lowercase` (full Unicode lower-casing); the result is
/// named `lowercase`.  It maps each character to its lower-case form, so an
/// empty string stays empty.
#[verifier::external_body]
pub(crate) fn to_lowercase(s: &str) -> (res: String)
    ensures
        res@ == lowercase(s@),
        s@.len() == 0 ==> res@.len() == 0,
{
    s.to_lowercase()
}

/// The characters of `s`, in order.
pub fn chars_of(s: &str) -> (res: Vec<char>)
    ensures
        res@ == s@,
{
    let mut out: Vec<char> = Vec::new();
    for c in it: s.chars()
        invariant
            out@ == it.seq().take(it.index() as int),
            it.seq() == s@,
    {
        out.push(c);
    }
    out
}

/// The lower-cased characters of `s`.
pub fn lowercase_chars(s: &str) -> (res: Vec<char>)
    ensures
        res@ == lowercase(s@),
{
    let low = to_lowercase(s);
    chars_of(low.as_str())
}

/// Does `needle` occur at position `start` of `hay`?
fn matches_at(hay: &Vec<char>, needle: &Vec<char>, start: usize) -> (res: bool)
    requires
        start + needle.len() <= hay.len(),
    ensures
        res == (hay@.subrange(start as int, start + needle.len()) == needle@),
{
    let n = needle.len();
    let mut k: usize = 0;
    while k < n
        invariant
            n == needle.len(),
            start + n <= hay.len(),
            k <= n,
            forall|j: int| 0 <= j < k ==> hay@[start + j] == needle@[j],
        decreases n - k,
    {
        if hay[start + k] != needle[k] {
            assert(hay@.subrange(start as int, start + n)[k as int] != needle@[k as int]);
            return false;
        }
        k = k + 1;
    }
    assert(hay@.subrange(start as int, start + n) =~= needle@);
    true
}

/// `t` occurs in `s` starting at position `i`: the characters of `s` from
/// `i` on are those of `t`, in order and without gaps.
pub open spec fn occurs_at(s: Seq<char>, t: Seq<char>, i: int) -> bool {
    0 <= i && i + t.len() <= s.len() && forall|k: int| 0 <= k < t.len() ==> #[trigger] s[i + k] == t[k]
}

/// Substring search finds `t` in `s` exactly when `t` occurs in `s` as
/// one contiguous run: the characters of `s` from some position on are
/// those of `t`, in order and without gaps.
pub proof fn law_infix_is_contiguous_run(s: Seq<char>, t: Seq<char>)
    ensures
        has_infix(s, t) <==> exists|i: int| #[trigger] occurs_at(s, t, i),
{
    if has_infix(s, t) {
        let i = choose|i: int| 0 <= i && i + t.len() <= s.len() && #[trigger] s.subrange(i, i + t.len()) == t;
        assert forall|k: int| 0 <= k < t.len() implies #[trigger] s[i + k] == t[k] by {
            assert(s.subrange(i, i + t.len())[k] == s[i + k]);
        }
        assert(occurs_at(s, t, i));
    }
    if exists|i: int| #[trigger] occurs_at(s, t, i) {
        let i = choose|i: int| #[trigger] occurs_at(s, t, i);
        assert forall|k: int| 0 <= k < t.len() implies #[trigger] s.subrange(i, i + t.len())[k] == t[k] by {
            assert(s[i + k] == t[k]);
        }
        assert(s.subrange(i, i + t.len()) =~= t);
    }
}

/// Substring search, as `str::contains` with a string pattern does it.
pub fn contains_chars(hay: &Vec<char>, needle: &Vec<char>) -> (res: bool)
    ensures
        res == has_infix(hay@, needle@),
{
    if needle.len() > hay.len() {
        return false;
    }
    let last = hay.len() - needle.len();
    let mut i: usize = 0;
    while i <= last
        invariant
            last == hay.len() - needle.len(),
            needle.len() <= hay.len(),
            i <= last + 1,
            forall|j: int|
                0 <= j < i ==> #[trigger] hay@.subrange(j, j + needle.len()) != needle@,
        decreases last + 1 - i,
    {
        if matches_at(hay, needle, i) {
            return true;
        }
        if i == last {
            return false;
        }
        i = i + 1;
    }
    false
}

/// `char::is_whitespace`.
pub fn is_whitespace(c: char) -> (res: bool)
    ensures
        res == is_white_space(c),
{
    ('\u{9}' <= c && c <= '\u{D}') || c == ' ' || c == '\u{85}' || c == '\u{A0}' || c
        == '\u{1680}' || ('\u{2000}' <= c && c <= '\u{200A}') || c == '\u{2028}' || c
        == '\u{2029}' || c == '\u{202F}' || c == '\u{205F}' || c == '\u{3000}'
}

/// `s.trim().is_empty()`: every character is white space.
pub fn blank(s: &Vec<char>) -> (res: bool)
    ensures
        res == is_blank(s@),
{
    let mut i: usize = 0;
    while i < s.len()
        invariant
            i <= s.len(),
            forall|j: int| 0 <= j < i ==> is_white_space(#[trigger] s@[j]),
        decreases s.len() - i,
    {
        if !is_whitespace(s[i]) {
            return false;
        }
        i = i + 1;
    }
    true
}

/// Remove one leading U+FEFF from `s`, if present.
pub fn strip_bom_char(s: String) -> (res: String)
    ensures
        res@ == without_bom_char(s@),
{
    let n = s.as_str().unicode_len();
    if n > 0 && s.as_str().get_char(0) == '\u{FEFF}' {
        let rest = s.as_str().substring_char(1, n);
        String::from_str(rest)
    } else {
        s
    }
}

/// Copy of `bytes` without its first `k` bytes.
pub fn bytes_after(bytes: &[u8], k: usize) -> (res: Vec<u8>)
    requires
        k <= bytes@.len(),
    ensures
        res@ == bytes@.skip(k as int),
{
    let mut out: Vec<u8> = Vec::new();
    let mut i: usize = k;
    while i < bytes.len()
        invariant
            k <= i <= bytes@.len(),
            out@ == bytes@.subrange(k as int, i as int),
        decreases bytes.len() - i,
    {
        out.push(bytes[i]);
        i = i + 1;
        assert(out@ =~= bytes@.subrange(k as int, i as int));
    }
    assert(out@ =~= bytes@.skip(k as int));
    out
}

/// Copy of the first `k` bytes of `bytes`.
pub fn bytes_before(bytes: &[u8], k: usize) -> (res: Vec<u8>)
    requires
        k <= bytes@.len(),
    ensures
        res@ == bytes@.take(k as int),
{
    let mut out: Vec<u8> = Vec::new();
    let mut i: usize = 0;
    while i < k
        invariant
            i <= k <= bytes@.len(),
            out@ == bytes@.take(i as int),
        decreases k - i,
    {
        out.push(bytes[i]);
        i = i + 1;
        assert(out@ =~= bytes@.take(i as int));
    }
    out
}

/// Copy of `bytes`.
pub fn bytes_copy(bytes: &[u8]) -> (res: Vec<u8>)
    ensures
        res@ == bytes@,
{
    let res = bytes_after(bytes, 0);
    assert(bytes@.skip(0) =~= bytes@);
    res
}

/// `true` when `s` begins with `p`.
pub open spec fn has_prefix(s: Seq<u8>, p: Seq<u8>) -> bool {
    p.len() <= s.len() && s.take(p.len() as int) == p
}

/// `bytes.starts_with(prefix)`.
pub fn starts_with(bytes: &[u8], prefix: &[u8]) -> (res: bool)
    ensures
        res == has_prefix(bytes@, prefix@),
{
    if prefix.len() > bytes.len() {
        return false;
    }
    let mut i: usize = 0;
    while i < prefix.len()
        invariant
            prefix@.len() <= bytes@.len(),
            i <= prefix@.len(),
            forall|j: int| 0 <= j < i ==> bytes@[j] == prefix@[j],
        decreases prefix.len() - i,
    {
        if bytes[i] != prefix[i] {
            assert(bytes@.take(prefix@.len() as int)[i as int] != prefix@[i as int]);
            return false;
        }
        i = i + 1;
    }
    assert(bytes@.take(prefix@.len() as int) =~= prefix@);
    true
}

} // verus!
