//! Reading and writing CSV documents, and guessing their separator.
//!
//! The functions here work on bytes: reading a file from disk and writing
//! it back are left to the caller.
use vstd::prelude::*;
use vstd::utf8::*;
use crate::encoding::{
    auto_decoded, decode_as, decode_bytes, decoded_as, encode_output, encoded_output,
    starts_with_bom, starts_with_bom_of, utf8_name, TextEncoding,
};
use crate::encoding::{law_utf8_output_reads_back, utf8_bom};
use crate::text::{
    blank, bom_char, bytes_before, chars_of, has_prefix, is_blank, lossy_utf8, utf8_lossy, utf8_str,
};

verus! {

#[verifier::external_type_specification]
#[verifier::external_body]
pub struct ExCsvLibError(csv::Error);

#[verifier::external_type_specification]
#[verifier::external_body]
pub struct ExIoError(std::io::Error);

// ── Errors and results ────────────────────────────────────────────────────────

/// Why a CSV document could not be read or written.
#[derive(Debug)]
pub enum CsvError {
    Io(std::io::Error),
    Parse(csv::Error),
}

impl From<csv::Error> for CsvError {
    fn from(e: csv::Error) -> (res: Self) {
        CsvError::Parse(e)
    }
}

impl vstd::std_specs::convert::FromSpecImpl<csv::Error> for CsvError {
    open spec fn obeys_from_spec() -> bool {
        true
    }

    open spec fn from_spec(e: csv::Error) -> CsvError {
        CsvError::Parse(e)
    }
}

impl From<std::io::Error> for CsvError {
    fn from(e: std::io::Error) -> (res: Self) {
        CsvError::Io(e)
    }
}

impl vstd::std_specs::convert::FromSpecImpl<std::io::Error> for CsvError {
    open spec fn obeys_from_spec() -> bool {
        true
    }

    open spec fn from_spec(e: std::io::Error) -> CsvError {
        CsvError::Io(e)
    }
}

/// A parsed document plus the facts the caller warns the user about.
#[derive(Debug)]
pub struct CsvReadResult {
    pub headers: Vec<String>,
    pub rows: Vec<Vec<String>>,
    /// `true` if at least one data row had a different number of fields than
    /// the header row.
    pub had_jagged_rows: bool,
    /// The encoding used to decode the file (detected or requested).
    pub encoding: TextEncoding,
    /// `true` if the file began with the byte-order mark of `encoding`.
    pub encoding_bom: bool,
}

// ── The csv crate ─────────────────────────────────────────────────────────────

/// What the `csv` crate reads from `text` with delimiter `sep`, flexible
/// record lengths and a header row: the header fields and the data records,
/// or nothing when it reports an error.
pub uninterp spec fn csv_table(text: Seq<char>, sep: u8) -> Option<(Seq<Seq<char>>, Seq<Seq<Seq<char>>>)>;

/// The bytes the `csv` crate writes for `records` with delimiter `sep`.
pub uninterp spec fn csv_bytes(records: Seq<Seq<Seq<char>>>, sep: u8) -> Seq<u8>;

/// Reads `text` with `csv::ReaderBuilder` (delimiter `sep`, `flexible(true)`,
/// header row on): `headers()` and then every record of `records()`, fields
/// copied into `String`s.  The outcome is named `csv_table`.
///
/// With an ASCII delimiter the read cannot fail: a `Cursor` over memory has
/// no I/O error, `flexible(true)` turns off the field-count check, and the
/// only other error, invalid UTF-8 in a field, cannot arise because every
/// byte the reader drops or splits at (delimiter, `"`, `\r`, `\n`, a
/// leading UTF-8 byte-order mark) is a whole character of `text`, so each
/// field is made of whole characters of `text`.
#[verifier::external_body]
fn parse_table(text: &str, sep: u8) -> (res: Result<(Vec<String>, Vec<Vec<String>>), csv::Error>)
    ensures
        sep < 128 ==> res is Ok,
        res is Err <==> csv_table(text@, sep) is None,
        res matches Ok(t) ==> csv_table(text@, sep) == Some((t.0.deep_view(), t.1.deep_view())),
{
    let mut rdr = csv::ReaderBuilder::new().delimiter(sep).flexible(true).from_reader(
        std::io::Cursor::new(text.as_bytes()),
    );
    let headers: Vec<String> = rdr.headers()?.iter().map(String::from).collect();
    let rows: Result<Vec<Vec<String>>, csv::Error> = rdr.records().map(
        |r| r.map(|rec| rec.iter().map(String::from).collect()),
    ).collect();
    Ok((headers, rows?))
}

/// Every record has as many fields as the first.
pub open spec fn same_width(records: Seq<Seq<Seq<char>>>) -> bool {
    forall|i: int| 0 <= i < records.len() ==> #[trigger] records[i].len() == records[0].len()
}

/// Records the CSV writer writes so that the reader (as `parse_table` sets
/// it up) reads them back unchanged: an ASCII delimiter other than `"`,
/// `\r` and `\n`; at least one record, each with at least one field; and a
/// first field that does not begin with U+FEFF, which the reader would drop
/// as a byte-order mark.
pub open spec fn reads_back_as_written(records: Seq<Seq<Seq<char>>>, sep: u8) -> bool {
    &&& sep < 128 && sep != 0x22u8 && sep != 0x0Du8 && sep != 0x0Au8
    &&& records.len() > 0
    &&& forall|i: int| 0 <= i < records.len() ==> #[trigger] records[i].len() > 0
    &&& !(records[0][0].len() > 0 && records[0][0][0] == bom_char())
}

/// Writes `records` into memory with `csv::WriterBuilder` (delimiter `sep`,
/// other settings default) via `write_record` and `flush`; the bytes are
/// named `csv_bytes`.  With `flexible` off the writer refuses a record whose
/// field count differs from the first record's (`UnequalLengths`), and
/// writing into a `Vec` cannot fail otherwise.  The writer copies field
/// bytes as they are and adds only the delimiter and ASCII quote and
/// terminator bytes, so with an ASCII delimiter the output of `String`
/// fields is UTF-8.
///
/// The reader gets such output back: `csv-core`'s writer puts in quotes
/// every field holding the delimiter, `"`, `\r` or `\n`, doubles the quotes
/// inside, ends each record with `\n`, and writes a record without any
/// byte as `""`; its reader undoes the quoting, takes `\n` as the end of a
/// record, and drops only a UTF-8 byte-order mark at the very start and
/// empty lines, which this output does not contain.  Nor does it begin
/// with a byte-order mark: it begins with `"`, the delimiter, or the first
/// character of the first field.
#[verifier::external_body]
fn write_records(records: &Vec<Vec<String>>, sep: u8) -> (res: Result<Vec<u8>, csv::Error>)
    ensures
        res is Ok <==> same_width(records.deep_view()),
        res matches Ok(b) ==> b@ == csv_bytes(records.deep_view(), sep),
        res matches Ok(b) ==> (sep < 128 ==> valid_utf8(b@)),
        res matches Ok(b) ==> (reads_back_as_written(records.deep_view(), sep) ==> (csv_table(
            decode_utf8(b@),
            sep,
        ) == Some((records.deep_view()[0], records.deep_view().skip(1))) && !has_prefix(
            b@,
            utf8_bom(),
        ))),
{
    let mut buf: Vec<u8> = Vec::new();
    {
        let mut wtr = csv::WriterBuilder::new().delimiter(sep).from_writer(&mut buf);
        for record in records.iter() {
            wtr.write_record(record)?;
        }
        wtr.flush()?;
    }
    Ok(buf)
}

// ── Reading ───────────────────────────────────────────────────────────────────

/// The text, encoding name and byte-order-mark flag a read works with.
pub open spec fn read_text(raw: Seq<u8>, hint: Option<(Seq<char>, bool)>) -> (Seq<char>, Seq<char>, bool) {
    match hint {
        Some((name, bom)) => (decoded_as(raw, name, bom), name, starts_with_bom_of(raw, name)),
        None => auto_decoded(raw),
    }
}

pub open spec fn hint_view(hint: Option<(TextEncoding, bool)>) -> Option<(Seq<char>, bool)> {
    match hint {
        Some((e, b)) => Some((e@, b)),
        None => None,
    }
}

/// What reading the bytes `raw` gives: the header fields, the data rows,
/// whether some row is jagged, the encoding's name and the byte-order-mark
/// flag; nothing when the CSV reader refuses the text.
pub open spec fn read_outcome(raw: Seq<u8>, sep: u8, hint: Option<(Seq<char>, bool)>) -> Option<
    (Seq<Seq<char>>, Seq<Seq<Seq<char>>>, bool, Seq<char>, bool),
> {
    let (text, name, bom) = read_text(raw, hint);
    match csv_table(text, sep) {
        None => None,
        Some((h, r)) => Some((h, r, has_jagged(h, r), name, bom)),
    }
}

/// Some data row's field count differs from the header's.
pub open spec fn has_jagged(headers: Seq<Seq<char>>, rows: Seq<Seq<Seq<char>>>) -> bool {
    exists|i: int| 0 <= i < rows.len() && #[trigger] rows[i].len() != headers.len()
}

/// Does some data row's field count differ from the header's?
pub fn any_jagged(headers: &Vec<String>, rows: &Vec<Vec<String>>) -> (res: bool)
    ensures
        res == has_jagged(headers.deep_view(), rows.deep_view()),
{
    let ncols = headers.len();
    let mut i: usize = 0;
    while i < rows.len()
        invariant
            ncols == headers.deep_view().len(),
            i <= rows.len(),
            forall|j: int| 0 <= j < i ==> #[trigger] rows.deep_view()[j].len() == ncols,
        decreases rows.len() - i,
    {
        assert(rows.deep_view()[i as int].len() == rows[i as int].len());
        if rows[i].len() != ncols {
            return true;
        }
        i = i + 1;
    }
    false
}

/// A read reports jagged rows exactly when some data row, at any position,
/// has a different number of fields than the header.
pub proof fn law_jagged_means_some_row_differs(raw: Seq<u8>, sep: u8, hint: Option<(Seq<char>, bool)>)
    ensures
        read_outcome(raw, sep, hint) matches Some((h, r, jagged, _, _)) ==> (jagged <==> exists|i: int|
            0 <= i < r.len() && #[trigger] r[i].len() != h.len()),
        forall|h: Seq<Seq<char>>, r: Seq<Seq<Seq<char>>>|
            #[trigger] has_jagged(h, r) <==> exists|i: int| 0 <= i < r.len() && #[trigger] r[i].len() != h.len(),
{
    let t = read_text(raw, hint);
    if let Some((h, r)) = csv_table(t.0, sep) {
        assert(read_outcome(raw, sep, hint) == Some((h, r, has_jagged(h, r), t.1, t.2)));
    }
}

/// Read a CSV document from the bytes of a file.
///
/// Pass `encoding_hint = None` to detect the encoding (the usual case when a
/// file is first opened) or `Some((encoding, bom))` to force one, where
/// `bom` says whether a leading UTF-8 byte-order mark is to be dropped.
/// `encoding` is the encoding used to decode the file, detected or
/// requested, and `encoding_bom` reports whether the file began with a
/// byte-order mark for that encoding.  Jagged files are accepted; `had_jagged_rows`
/// reports them.  With an ASCII separator the read always succeeds.
pub fn read_csv(raw: &[u8], sep: u8, encoding_hint: Option<(TextEncoding, bool)>) -> (res: Result<CsvReadResult, CsvError>)
    ensures
        sep < 128 ==> res is Ok,
        match read_outcome(raw@, sep, hint_view(encoding_hint)) {
            None => res matches Err(CsvError::Parse(_)),
            Some((h, r, jagged, name, bom)) => res matches Ok(out) && out.headers.deep_view() == h
                && out.rows.deep_view() == r && out.had_jagged_rows == jagged && out.encoding@
                == name && out.encoding_bom == bom,
        },
{
    let (text, encoding, encoding_bom) = match encoding_hint {
        Some((enc, bom)) => {
            let t = decode_as(raw, &enc, bom);
            let had_bom = starts_with_bom(raw, &enc);
            (t, enc, had_bom)
        },
        None => decode_bytes(raw),
    };
    match parse_table(text.as_str(), sep) {
        Err(e) => Err(CsvError::Parse(e)),
        Ok((headers, rows)) => {
            let had_jagged_rows = any_jagged(&headers, &rows);
            Ok(CsvReadResult { headers, rows, had_jagged_rows, encoding, encoding_bom })
        },
    }
}

// ── Writing ───────────────────────────────────────────────────────────────────

/// A data row padded with empty fields up to `ncols`.
pub open spec fn padded_row(row: Seq<Seq<char>>, ncols: nat) -> Seq<Seq<char>> {
    if row.len() < ncols {
        row + Seq::new((ncols - row.len()) as nat, |i: int| Seq::<char>::empty())
    } else {
        row
    }
}

/// The records handed to the CSV writer: the header, then every row padded
/// to the header's width.
pub open spec fn output_records(headers: Seq<Seq<char>>, rows: Seq<Seq<Seq<char>>>) -> Seq<Seq<Seq<char>>> {
    seq![headers] + rows.map_values(|r: Seq<Seq<char>>| padded_row(r, headers.len()))
}

/// No data row is wider than the header.
pub open spec fn no_row_wider(headers: Seq<Seq<char>>, rows: Seq<Seq<Seq<char>>>) -> bool {
    forall|i: int| 0 <= i < rows.len() ==> #[trigger] rows[i].len() <= headers.len()
}

fn copy_fields(fields: &[String], ncols: usize) -> (res: Vec<String>)
    ensures
        res.deep_view() == padded_row(fields.deep_view(), ncols as nat),
{
    let ghost base = fields.deep_view();
    let mut out: Vec<String> = Vec::new();
    let mut i: usize = 0;
    while i < fields.len()
        invariant
            i <= fields.len(),
            base == fields.deep_view(),
            out.len() == i,
            forall|k: int| 0 <= k < i ==> #[trigger] out@[k]@ == base[k],
        decreases fields.len() - i,
    {
        let f = fields[i].clone();
        assert(f@ == base[i as int]);
        out.push(f);
        i = i + 1;
    }
    while out.len() < ncols
        invariant
            base == fields.deep_view(),
            base.len() <= out.len(),
            base.len() < ncols ==> out.len() <= ncols,
            base.len() >= ncols ==> out.len() == base.len(),
            forall|k: int| 0 <= k < base.len() ==> #[trigger] out@[k]@ == base[k],
            forall|k: int| base.len() <= k < out.len() ==> #[trigger] out@[k]@ == Seq::<char>::empty(),
        decreases ncols - out.len(),
    {
        let e = String::new();
        out.push(e);
    }
    assert(out.deep_view() =~= padded_row(base, ncols as nat));
    out
}

/// A header the writer and reader agree on: an ASCII separator other than
/// `"`, `\r` and `\n`, at least one column, and a first column name that
/// does not begin with U+FEFF.
pub open spec fn header_reads_back(headers: Seq<Seq<char>>, sep: u8) -> bool {
    &&& sep < 128 && sep != 0x22u8 && sep != 0x0Du8 && sep != 0x0Au8
    &&& headers.len() > 0
    &&& !(headers[0].len() > 0 && headers[0][0] == bom_char())
}

/// The data rows as written: each padded to the header's width.
pub open spec fn padded_rows(headers: Seq<Seq<char>>, rows: Seq<Seq<Seq<char>>>) -> Seq<Seq<Seq<char>>> {
    rows.map_values(|r: Seq<Seq<char>>| padded_row(r, headers.len()))
}

proof fn lemma_utf8_write_reads_back(
    h: Seq<Seq<char>>,
    rs: Seq<Seq<Seq<char>>>,
    sep: u8,
    bom: bool,
    utf8: Seq<u8>,
)
    requires
        header_reads_back(h, sep),
        no_row_wider(h, rs),
        valid_utf8(utf8),
        !has_prefix(utf8, utf8_bom()),
        csv_table(decode_utf8(utf8), sep) == Some((h, padded_rows(h, rs))),
    ensures
        read_outcome(encoded_output(utf8, utf8_name(), bom), sep, None) == Some(
            (h, padded_rows(h, rs), false, utf8_name(), bom),
        ),
        read_outcome(encoded_output(utf8, utf8_name(), bom), sep, Some((utf8_name(), bom)))
            == Some((h, padded_rows(h, rs), false, utf8_name(), bom)),
{
    law_utf8_output_reads_back(utf8, bom);
    let pr = padded_rows(h, rs);
    assert(!has_jagged(h, pr)) by {
        assert forall|i: int| 0 <= i < pr.len() implies #[trigger] pr[i].len() == h.len() by {
            assert(pr[i] == padded_row(rs[i], h.len()));
            assert(rs[i].len() <= h.len());
        }
    }
}

/// The records handed to the CSV writer: the header, then every row padded
/// to the header's width.  They all have the same width exactly when no row
/// is wider than the header.
fn output_table(headers: &[String], rows: &[Vec<String>]) -> (res: Vec<Vec<String>>)
    ensures
        res.deep_view() == output_records(headers.deep_view(), rows.deep_view()),
        same_width(res.deep_view()) <==> no_row_wider(headers.deep_view(), rows.deep_view()),
{
    let ncols = headers.len();
    let ghost h = headers.deep_view();
    let ghost rs = rows.deep_view();
    let mut records: Vec<Vec<String>> = Vec::new();
    records.push(copy_fields(headers, 0));
    proof {
        assert(padded_row(h, 0) == h);
    }
    let mut i: usize = 0;
    while i < rows.len()
        invariant
            ncols == h.len(),
            h == headers.deep_view(),
            rs == rows.deep_view(),
            i <= rows.len(),
            records.deep_view() == output_records(h, rs.take(i as int)),
        decreases rows.len() - i,
    {
        let fields = rows[i].as_slice();
        assert(fields.deep_view() =~= rs[i as int]);
        let row = copy_fields(fields, ncols);
        let ghost before = records.deep_view();
        records.push(row);
        assert(records.deep_view() =~= before.push(padded_row(rs[i as int], h.len())));
        i = i + 1;
        assert(rs.take(i as int).map_values(|r: Seq<Seq<char>>| padded_row(r, h.len()))
            =~= rs.take(i - 1).map_values(|r: Seq<Seq<char>>| padded_row(r, h.len())).push(
            padded_row(rs[i - 1], h.len())));
        assert(records.deep_view() =~= output_records(h, rs.take(i as int)));
    }
    assert(rs.take(rows.len() as int) =~= rs);
    let ghost recs = output_records(h, rs);
    assert(same_width(recs) <==> no_row_wider(h, rs)) by {
        assert(recs[0] == h);
        if same_width(recs) {
            assert forall|j: int| 0 <= j < rs.len() implies #[trigger] rs[j].len() <= h.len() by {
                assert(recs[j + 1] == padded_row(rs[j], h.len()));
            }
        }
        if no_row_wider(h, rs) {
            assert forall|j: int| 0 <= j < recs.len() implies #[trigger] recs[j].len() == recs[0].len() by {
                if j > 0 {
                    assert(recs[j] == padded_row(rs[j - 1], h.len()));
                    assert(rs[j - 1].len() <= h.len());
                }
            }
        }
    }
    records
}

/// Write a CSV document into the bytes of a file in `encoding`.
///
/// The document is first produced as UTF-8 by the CSV writer, then
/// re-encoded, with a byte-order mark in front when `encoding_bom` is set.
/// Rows shorter than the header are padded with empty fields; a row wider
/// than the header makes the writer refuse the document.  A document
/// written in UTF-8 reads back as written (rows padded), whether the
/// encoding is detected or given, as long as the header and separator
/// allow it (`header_reads_back`).
pub fn write_csv(
    sep: u8,
    headers: &[String],
    rows: &[Vec<String>],
    encoding: &TextEncoding,
    encoding_bom: bool,
) -> (res: Result<Vec<u8>, CsvError>)
    requires
        can_encode_output(sep, headers.deep_view(), rows.deep_view(), encoding@),
    ensures
        res is Ok <==> no_row_wider(headers.deep_view(), rows.deep_view()),
        res matches Err(e) ==> e is Parse,
        res matches Ok(b) ==> b@ == encoded_output(
            csv_bytes(output_records(headers.deep_view(), rows.deep_view()), sep),
            encoding@,
            encoding_bom,
        ),
        res matches Ok(b) ==> (encoding@ == utf8_name() && header_reads_back(
            headers.deep_view(),
            sep,
        ) ==> {
            let expected = (
                headers.deep_view(),
                padded_rows(headers.deep_view(), rows.deep_view()),
                false,
                utf8_name(),
                encoding_bom,
            );
            &&& read_outcome(b@, sep, None) == Some(expected)
            &&& read_outcome(b@, sep, Some((utf8_name(), encoding_bom))) == Some(expected)
        }),
{
    let ghost h = headers.deep_view();
    let ghost rs = rows.deep_view();
    let ghost recs = output_records(h, rs);
    let records = output_table(headers, rows);
    match write_records(&records, sep) {
        Err(e) => Err(CsvError::Parse(e)),
        Ok(utf8) => {
            proof {
                if encoding@ == utf8_name() && header_reads_back(h, sep) {
                    assert(recs[0] == h);
                    assert(recs.skip(1) =~= padded_rows(h, rs));
                    assert forall|i: int| 0 <= i < recs.len() implies #[trigger] recs[i].len() > 0 by {
                        if i > 0 {
                            assert(recs[i] == padded_row(rs[i - 1], h.len()));
                        }
                    }
                    assert(reads_back_as_written(recs, sep));
                    lemma_utf8_write_reads_back(h, rs, sep, encoding_bom, utf8@);
                }
            }
            Ok(encode_output(utf8.as_slice(), encoding, encoding_bom))
        },
    }
}

/// Whether `write_csv` can produce the document: only re-encoding from
/// UTF-8 into another encoding needs the CSV writer's output to be valid
/// UTF-8, which an ASCII separator guarantees; a row wider than the header
/// is refused before any re-encoding.
pub open spec fn can_encode_output(
    sep: u8,
    headers: Seq<Seq<char>>,
    rows: Seq<Seq<Seq<char>>>,
    name: Seq<char>,
) -> bool {
    name == utf8_name() || sep < 128 || !no_row_wider(headers, rows) || valid_utf8(
        csv_bytes(output_records(headers, rows), sep),
    )
}

/// `write_csv` for any input: `None` when the CSV writer's output is not
/// valid UTF-8 and would have to be re-encoded into another encoding (only
/// possible with a non-ASCII separator), and otherwise what `write_csv`
/// gives.
pub fn write_csv_checked(
    sep: u8,
    headers: &[String],
    rows: &[Vec<String>],
    encoding: &TextEncoding,
    encoding_bom: bool,
) -> (res: Option<Result<Vec<u8>, CsvError>>)
    ensures
        res is None <==> !can_encode_output(sep, headers.deep_view(), rows.deep_view(), encoding@),
        res matches Some(r) ==> (r is Ok <==> no_row_wider(headers.deep_view(), rows.deep_view())),
        res matches Some(Err(e)) ==> e is Parse,
        res matches Some(Ok(b)) ==> b@ == encoded_output(
            csv_bytes(output_records(headers.deep_view(), rows.deep_view()), sep),
            encoding@,
            encoding_bom,
        ),
{
    if encoding.is_utf8() || sep < 128 {
        return Some(write_csv(sep, headers, rows, encoding, encoding_bom));
    }
    let records = output_table(headers, rows);
    match write_records(&records, sep) {
        Err(_) => Some(write_csv(sep, headers, rows, encoding, encoding_bom)),
        Ok(utf8) => {
            if utf8_str(utf8.as_slice()).is_some() {
                Some(write_csv(sep, headers, rows, encoding, encoding_bom))
            } else {
                None
            }
        },
    }
}

// ── Separator detection ───────────────────────────────────────────────────────

/// How many leading bytes of a file are sampled.
pub open spec fn sample_limit() -> nat {
    8192
}

/// How many non-blank lines are scored.
pub open spec fn line_limit() -> nat {
    20
}

/// The candidate separators, in the order they are tried.
pub open spec fn candidate_separators() -> Seq<u8> {
    seq![0x2Cu8, 0x3Bu8, 0x09u8, 0x7Cu8]  // , ; tab |
}

/// `line` without a final carriage return.
pub open spec fn drop_cr(line: Seq<char>) -> Seq<char> {
    if line.len() > 0 && line.last() == '\r' {
        line.drop_last()
    } else {
        line
    }
}

/// The lines of `t` from position `i` on, where the current line began at
/// `start`: lines end at `\n` (a `\r` before it is dropped) and a final line
/// needs no terminator.  This is how `str::lines` splits.
pub open spec fn split_lines(t: Seq<char>, start: int, i: int) -> Seq<Seq<char>>
    decreases t.len() - i,
{
    if i >= t.len() {
        if 0 <= start < t.len() {
            seq![t.subrange(start, t.len() as int)]
        } else {
            seq![]
        }
    } else if i >= 0 && t[i] == '\n' {
        seq![drop_cr(t.subrange(start, i))] + split_lines(t, i + 1, i + 1)
    } else {
        split_lines(t, start, i + 1)
    }
}

/// `str::lines`.
pub open spec fn text_lines(t: Seq<char>) -> Seq<Seq<char>> {
    split_lines(t, 0, 0)
}

/// The non-blank lines among the first `k` of `ls`, in order.
pub open spec fn non_blank_lines(ls: Seq<Seq<char>>, k: int) -> Seq<Seq<char>>
    decreases k,
{
    if k <= 0 {
        seq![]
    } else if is_blank(ls[k - 1]) {
        non_blank_lines(ls, k - 1)
    } else {
        non_blank_lines(ls, k - 1).push(ls[k - 1])
    }
}

/// At most the first `n` elements of `s`.
pub open spec fn at_most<A>(s: Seq<A>, n: nat) -> Seq<A> {
    if s.len() <= n {
        s
    } else {
        s.take(n as int)
    }
}

/// The lines of a text that separator detection scores: its first
/// non-blank lines.
pub open spec fn text_sample_lines(t: Seq<char>) -> Seq<Seq<char>> {
    let ls = text_lines(t);
    at_most(non_blank_lines(ls, ls.len() as int), line_limit())
}

/// The leading sample of a file's bytes.
pub open spec fn byte_sample(content: Seq<u8>) -> Seq<u8> {
    if content.len() <= sample_limit() {
        content
    } else {
        content.take(sample_limit() as int)
    }
}

/// The lines that separator detection scores: the first non-blank lines of
/// the (lossily decoded) leading sample of the file.
pub open spec fn sampled_lines(content: Seq<u8>) -> Seq<Seq<char>> {
    text_sample_lines(lossy_utf8(byte_sample(content)))
}

/// Occurrences of `c` in `line`.
pub open spec fn char_count(line: Seq<char>, c: char) -> nat
    decreases line.len(),
{
    if line.len() == 0 {
        0
    } else {
        char_count(line.drop_last(), c) + if line.last() == c {
            1nat
        } else {
            0nat
        }
    }
}

/// Occurrences of `c` over all of `ls`.
pub open spec fn total_count(ls: Seq<Seq<char>>, c: char) -> nat
    decreases ls.len(),
{
    if ls.len() == 0 {
        0
    } else {
        total_count(ls.drop_last(), c) + char_count(ls.last(), c)
    }
}

/// Every line holds `c` equally often.
pub open spec fn uniform_count(ls: Seq<Seq<char>>, c: char) -> bool {
    forall|i: int, j: int|
        0 <= i < ls.len() && 0 <= j < ls.len() ==> #[trigger] char_count(ls[i], c)
            == #[trigger] char_count(ls[j], c)
}

/// The score of a separator: how often it occurs, doubled when every line
/// holds it equally often.
pub open spec fn separator_score(ls: Seq<Seq<char>>, sep: u8) -> nat {
    let total = total_count(ls, sep as char);
    if total == 0 {
        0
    } else if uniform_count(ls, sep as char) {
        2 * total
    } else {
        total
    }
}

/// The best of the first `k` candidates and its score; a later candidate
/// wins only with a strictly higher score, and `,` with score 0 is where the
/// search starts.
pub open spec fn best_candidate(ls: Seq<Seq<char>>, k: nat) -> (u8, nat)
    decreases k,
{
    if k == 0 {
        (0x2Cu8, 0)
    } else {
        let prev = best_candidate(ls, (k - 1) as nat);
        let c = candidate_separators()[k - 1];
        let s = separator_score(ls, c);
        if s > prev.1 {
            (c, s)
        } else {
            prev
        }
    }
}

/// The separator detected in a text.
pub open spec fn text_separator(t: Seq<char>) -> u8 {
    let ls = text_sample_lines(t);
    if ls.len() == 0 {
        0x2Cu8
    } else {
        best_candidate(ls, 4).0
    }
}

/// The separator detected in a file's bytes.
pub open spec fn detected_separator(content: Seq<u8>) -> u8 {
    text_separator(lossy_utf8(byte_sample(content)))
}

pub open spec fn lines_view(ls: Seq<Vec<char>>) -> Seq<Seq<char>> {
    ls.map_values(|l: Vec<char>| l@)
}

fn char_slice(t: &Vec<char>, start: usize, end: usize) -> (res: Vec<char>)
    requires
        start <= end <= t.len(),
    ensures
        res@ == t@.subrange(start as int, end as int),
{
    let mut out: Vec<char> = Vec::new();
    let mut i = start;
    while i < end
        invariant
            start <= i <= end <= t.len(),
            out@ == t@.subrange(start as int, i as int),
        decreases end - i,
    {
        out.push(t[i]);
        i = i + 1;
        assert(out@ =~= t@.subrange(start as int, i as int));
    }
    out
}

fn lines_of(t: &Vec<char>) -> (res: Vec<Vec<char>>)
    ensures
        lines_view(res@) == text_lines(t@),
{
    let mut out: Vec<Vec<char>> = Vec::new();
    let mut start: usize = 0;
    let mut i: usize = 0;
    while i < t.len()
        invariant
            start <= i <= t.len(),
            text_lines(t@) == lines_view(out@) + split_lines(t@, start as int, i as int),
        decreases t.len() - i,
    {
        if t[i] == '\n' {
            let mut line = char_slice(t, start, i);
            let ghost raw_line = line@;
            if line.len() > 0 && line[line.len() - 1] == '\r' {
                line.pop();
                assert(line@ =~= raw_line.drop_last());
            }
            assert(line@ == drop_cr(t@.subrange(start as int, i as int)));
            let ghost before = lines_view(out@);
            out.push(line);
            assert(lines_view(out@) =~= before.push(line@));
            assert(split_lines(t@, start as int, i as int) == seq![line@] + split_lines(
                t@,
                i + 1,
                i + 1,
            ));
            assert(before + split_lines(t@, start as int, i as int) =~= before.push(line@)
                + split_lines(t@, i + 1, i + 1));
            start = i + 1;
        }
        i = i + 1;
    }
    if start < t.len() {
        let line = char_slice(t, start, t.len());
        let ghost before = lines_view(out@);
        out.push(line);
        assert(lines_view(out@) =~= before.push(line@));
        assert(before + seq![line@] =~= before.push(line@));
    } else {
        assert(lines_view(out@) + seq![] =~= lines_view(out@));
    }
    out
}

fn first_non_blank(ls: &Vec<Vec<char>>) -> (res: Vec<Vec<char>>)
    ensures
        lines_view(res@) == at_most(
            non_blank_lines(lines_view(ls@), ls@.len() as int),
            line_limit(),
        ),
{
    let ghost all = lines_view(ls@);
    let mut out: Vec<Vec<char>> = Vec::new();
    let mut i: usize = 0;
    while i < ls.len()
        invariant
            i <= ls.len(),
            all == lines_view(ls@),
            lines_view(out@) == at_most(non_blank_lines(all, i as int), line_limit()),
        decreases ls.len() - i,
    {
        let ghost nb = non_blank_lines(all, i as int);
        assert(all[i as int] == ls@[i as int]@);
        if !blank(&ls[i]) {
            assert(non_blank_lines(all, i + 1) == nb.push(all[i as int]));
            if out.len() < 20 {
                let ghost before = lines_view(out@);
                out.push(char_slice(&ls[i], 0, ls[i].len()));
                assert(ls@[i as int]@.subrange(0, ls@[i as int]@.len() as int) =~= ls@[i as int]@);
                assert(lines_view(out@) =~= before.push(all[i as int]));
            } else {
                assert(nb.push(all[i as int]).take(20) =~= nb.take(20));
            }
        } else {
            assert(non_blank_lines(all, i + 1) == nb);
        }
        i = i + 1;
    }
    out
}

fn count_char(line: &Vec<char>, c: char) -> (res: usize)
    ensures
        res == char_count(line@, c),
{
    let mut n: usize = 0;
    let mut k: usize = 0;
    while k < line.len()
        invariant
            k <= line.len(),
            n == char_count(line@.take(k as int), c),
            n <= k,
        decreases line.len() - k,
    {
        assert(line@.take(k + 1).drop_last() =~= line@.take(k as int));
        if line[k] == c {
            n = n + 1;
        }
        k = k + 1;
    }
    assert(line@.take(line.len() as int) =~= line@);
    n
}

fn score_separator(lines: &Vec<Vec<char>>, sep: u8) -> (res: u128)
    requires
        0 < lines.len() <= 20,
    ensures
        res == separator_score(lines_view(lines@), sep),
{
    let c = sep as char;
    let ghost ls = lines_view(lines@);
    let mut total: u128 = 0;
    let first = count_char(&lines[0], c);
    let mut lo: usize = first;
    let mut hi: usize = first;
    assert(ls[0] == lines@[0]@);
    assert(lo == char_count(ls[0], c));
    let mut i: usize = 0;
    while i < lines.len()
        invariant
            0 < lines.len() <= 20,
            ls == lines_view(lines@),
            c == sep as char,
            i <= lines.len(),
            total == total_count(ls.take(i as int), c),
            total <= i * 18446744073709551615u128,
            forall|j: int| 0 <= j < i ==> lo <= #[trigger] char_count(ls[j], c) <= hi,
            exists|j: int| 0 <= j < lines.len() && (j < i || j == 0) && lo == char_count(ls[j], c),
            exists|j: int| 0 <= j < lines.len() && (j < i || j == 0) && hi == char_count(ls[j], c),
            i == 0 ==> lo == hi && lo == char_count(ls[0], c),
        decreases lines.len() - i,
    {
        let n = count_char(&lines[i], c);
        assert(ls[i as int] == lines@[i as int]@);
        assert(ls.take(i + 1).drop_last() =~= ls.take(i as int));
        total = total + n as u128;
        if n < lo {
            lo = n;
        }
        if n > hi {
            hi = n;
        }
        i = i + 1;
    }
    assert(ls.take(lines.len() as int) =~= ls);
    assert(uniform_count(ls, c) <==> lo == hi) by {
        if lo == hi {
            assert forall|a: int, b: int| 0 <= a < ls.len() && 0 <= b < ls.len() implies #[trigger] char_count(ls[a], c)
                == #[trigger] char_count(ls[b], c) by {}
        }
        if uniform_count(ls, c) {
            let ja = choose|j: int| 0 <= j < lines.len() && (j < i || j == 0) && lo == char_count(ls[j], c);
            let jb = choose|j: int| 0 <= j < lines.len() && (j < i || j == 0) && hi == char_count(ls[j], c);
            assert(char_count(ls[ja], c) == char_count(ls[jb], c));
        }
    }
    if total == 0 {
        0
    } else if lo == hi {
        total * 2
    } else {
        total
    }
}

/// Guess the separator of a CSV document from its text: the first 20
/// non-blank lines are sampled.  Each candidate (`,` `;` tab `|`) scores
/// the number of times it occurs in them, doubled when every sampled line
/// holds it equally often.  The best score wins, earlier candidates on
/// ties; `,` is returned when nothing scores above zero.
pub fn detect_separator_in_text(text: &str) -> (res: u8)
    ensures
        res == text_separator(text@),
{
    let chars = chars_of(text);
    let all = lines_of(&chars);
    let lines = first_non_blank(&all);
    assert(lines_view(lines@).len() == lines.len());
    if lines.len() == 0 {
        return 0x2Cu8;
    }
    let candidates: [u8; 4] = [0x2Cu8, 0x3Bu8, 0x09u8, 0x7Cu8];
    assert(candidates@ == candidate_separators());
    let mut best_sep: u8 = 0x2Cu8;
    let mut best_score: u128 = 0;
    let mut k: usize = 0;
    while k < 4
        invariant
            k <= 4,
            0 < lines.len() <= 20,
            candidates@ == candidate_separators(),
            (best_sep, best_score as nat) == best_candidate(lines_view(lines@), k as nat),
        decreases 4 - k,
    {
        let sep = candidates[k];
        let score = score_separator(&lines, sep);
        if score > best_score {
            best_score = score;
            best_sep = sep;
        }
        k = k + 1;
    }
    best_sep
}

/// Guess the separator of a CSV file from its bytes: the first 8192 bytes
/// are decoded (lossily) and their text is scored as
/// `detect_separator_in_text` does.
pub fn detect_separator(content: &[u8]) -> (res: u8)
    ensures
        res == detected_separator(content@),
{
    let n = if content.len() <= 8192 {
        content.len()
    } else {
        8192
    };
    let sample = bytes_before(content, n);
    assert(content.len() <= 8192 ==> sample@ =~= content@);
    let text = utf8_lossy(sample.as_slice());
    detect_separator_in_text(text.as_str())
}

/// The best candidate is `,` (the starting point) or one of the candidates.
proof fn lemma_best_is_candidate(ls: Seq<Seq<char>>, k: nat)
    requires
        k <= 4,
    ensures
        best_candidate(ls, k).0 == 0x2Cu8 || candidate_separators().contains(best_candidate(ls, k).0),
        best_candidate(ls, k).1 == 0 ==> best_candidate(ls, k).0 == 0x2Cu8,
    decreases k,
{
    if k > 0 {
        lemma_best_is_candidate(ls, (k - 1) as nat);
        let c = candidate_separators()[k - 1];
        assert(candidate_separators()[k - 1] == c);
    }
}

/// When every candidate scores nothing, the first `k` candidates leave the
/// search at `,` with score 0.
proof fn lemma_no_score_keeps_comma(ls: Seq<Seq<char>>, k: nat)
    requires
        k <= 4,
        forall|j: int| 0 <= j < k ==> separator_score(ls, #[trigger] candidate_separators()[j]) == 0,
    ensures
        best_candidate(ls, k) == (0x2Cu8, 0nat),
    decreases k,
{
    if k > 0 {
        lemma_no_score_keeps_comma(ls, (k - 1) as nat);
        assert(separator_score(ls, candidate_separators()[k - 1]) == 0);
    }
}

/// A line holds `c` as often as there are characters equal to `c` in it.
pub proof fn law_char_count_counts_occurrences(line: Seq<char>, c: char)
    ensures
        char_count(line, c) == line.filter(|x: char| x == c).len(),
    decreases line.len(),
{
    reveal(Seq::filter);
    if line.len() > 0 {
        law_char_count_counts_occurrences(line.drop_last(), c);
    }
}

/// The total count of `c` over no lines is 0, and a further line adds its
/// own count.
pub proof fn law_total_count_adds_lines(ls: Seq<Seq<char>>, line: Seq<char>, c: char)
    ensures
        total_count(Seq::<Seq<char>>::empty(), c) == 0,
        total_count(ls.push(line), c) == total_count(ls, c) + char_count(line, c),
{
    assert(ls.push(line).drop_last() =~= ls);
}

/// A separator scores 0 when it occurs nowhere; otherwise its total count,
/// doubled exactly when every sampled line (those without it included)
/// holds it equally often.
pub proof fn law_separator_score(ls: Seq<Seq<char>>, sep: u8)
    ensures
        separator_score(ls, sep) == if total_count(ls, sep as char) == 0 {
            0
        } else if forall|i: int, j: int|
            0 <= i < ls.len() && 0 <= j < ls.len() ==> #[trigger] char_count(ls[i], sep as char)
                == #[trigger] char_count(ls[j], sep as char) {
            2 * total_count(ls, sep as char)
        } else {
            total_count(ls, sep as char)
        },
{
}

/// The score of the candidate at position `j`.
pub open spec fn candidate_score(ls: Seq<Seq<char>>, j: int) -> nat {
    separator_score(ls, candidate_separators()[j])
}

proof fn lemma_best_candidate(ls: Seq<Seq<char>>, k: nat)
    requires
        k <= 4,
    ensures
        forall|j: int| 0 <= j < k ==> #[trigger] candidate_score(ls, j) <= best_candidate(ls, k).1,
        best_candidate(ls, k).1 == 0 ==> best_candidate(ls, k).0 == 0x2Cu8,
        best_candidate(ls, k).1 > 0 ==> exists|m: int|
            0 <= m < k && best_candidate(ls, k).0 == candidate_separators()[m] && #[trigger] candidate_score(
                ls,
                m,
            ) == best_candidate(ls, k).1 && forall|j: int| 0 <= j < m ==> #[trigger] candidate_score(ls, j)
                < best_candidate(ls, k).1,
    decreases k,
{
    if k > 0 {
        lemma_best_candidate(ls, (k - 1) as nat);
        let prev = best_candidate(ls, (k - 1) as nat);
        let sc = candidate_score(ls, k - 1);
        if sc > prev.1 {
            assert(best_candidate(ls, k) == (candidate_separators()[k - 1], sc));
            assert(candidate_score(ls, k - 1) == best_candidate(ls, k).1);
        } else {
            assert(best_candidate(ls, k) == prev);
            if prev.1 > 0 {
                let m = choose|m: int|
                    0 <= m < k - 1 && prev.0 == candidate_separators()[m] && #[trigger] candidate_score(ls, m)
                        == prev.1 && forall|j: int| 0 <= j < m ==> #[trigger] candidate_score(ls, j) < prev.1;
                assert(candidate_score(ls, m) == best_candidate(ls, k).1);
            }
        }
    }
}

/// The detected separator is the best-scoring candidate, the earliest one
/// on ties; `,` when no line is sampled or no candidate scores.
pub proof fn law_detected_separator_scores_best(content: Seq<u8>)
    ensures
        ({
            let ls = sampled_lines(content);
            let d = detected_separator(content);
            &&& (ls.len() == 0 || forall|j: int| 0 <= j < 4 ==> #[trigger] candidate_score(ls, j) == 0)
                ==> d == 0x2Cu8
            &&& (ls.len() > 0 && exists|j: int| 0 <= j < 4 && #[trigger] candidate_score(ls, j) > 0)
                ==> exists|m: int|
                0 <= m < 4 && d == candidate_separators()[m] && #[trigger] candidate_score(ls, m) > 0
                    && (forall|j: int| 0 <= j < 4 ==> #[trigger] candidate_score(ls, j) <= candidate_score(ls, m))
                    && (forall|j: int| 0 <= j < m ==> #[trigger] candidate_score(ls, j) < candidate_score(ls, m))
        }),
{
    let ls = sampled_lines(content);
    lemma_best_candidate(ls, 4);
    let b = best_candidate(ls, 4);
    if ls.len() > 0 && exists|j: int| 0 <= j < 4 && #[trigger] candidate_score(ls, j) > 0 {
        let j0 = choose|j: int| 0 <= j < 4 && #[trigger] candidate_score(ls, j) > 0;
        assert(candidate_score(ls, j0) <= b.1);
        let m = choose|m: int|
            0 <= m < 4 && b.0 == candidate_separators()[m] && #[trigger] candidate_score(ls, m) == b.1
                && forall|j: int| 0 <= j < m ==> #[trigger] candidate_score(ls, j) < b.1;
        assert(candidate_score(ls, m) > 0);
    }
}

/// The detected separator is always one of the candidates `,` `;` tab `|`,
/// and it is `,` when none of them occurs in the sampled lines.
pub proof fn law_detected_separator_is_candidate(content: Seq<u8>)
    ensures
        candidate_separators().contains(detected_separator(content)),
        (forall|j: int|
            0 <= j < 4 ==> total_count(sampled_lines(content), #[trigger] candidate_separators()[j] as char)
                == 0) ==> detected_separator(content) == 0x2Cu8,
{
    let ls = sampled_lines(content);
    lemma_best_is_candidate(ls, 4);
    assert(candidate_separators()[0] == 0x2Cu8);
    if forall|j: int|
        0 <= j < 4 ==> total_count(ls, #[trigger] candidate_separators()[j] as char) == 0 {
        assert forall|j: int| 0 <= j < 4 implies separator_score(ls, #[trigger] candidate_separators()[j]) == 0 by {
            assert(total_count(ls, candidate_separators()[j] as char) == 0);
        }
        lemma_no_score_keeps_comma(ls, 4);
    }
}

} // verus!
