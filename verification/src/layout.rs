//! Presentation decisions: how wide each table column starts out, and the
//! window title.
use vstd::prelude::*;

verus! {

/// Rows sampled for the column widths.
pub open spec fn width_sample_rows() -> nat {
    50
}

/// The longest text, in characters, in column `ci` over the header and the first `k`
/// rows; a row without that column counts as empty.
pub open spec fn widest(headers: Seq<Seq<char>>, rows: Seq<Seq<Seq<char>>>, ci: int, k: int) -> nat
    decreases k,
{
    if k <= 0 {
        headers[ci].len()
    } else {
        let prev = widest(headers, rows, ci, k - 1);
        let here = if 0 <= ci < rows[k - 1].len() {
            rows[k - 1][ci].len()
        } else {
            0
        };
        if here > prev {
            here
        } else {
            prev
        }
    }
}

/// Pixel width for a column whose longest text has `m` characters: about
/// 8 px a character plus 16 px padding, kept between 60 and 300 px.
pub open spec fn width_for(m: nat) -> int {
    let w: int = (m * 8 + 16) as int;
    if w < 60 {
        60
    } else if w > 300 {
        300
    } else {
        w
    }
}

/// How many rows the widths look at.
pub open spec fn sampled(rows: Seq<Seq<Seq<char>>>) -> int {
    if rows.len() < width_sample_rows() {
        rows.len() as int
    } else {
        width_sample_rows() as int
    }
}

/// Every sampled text is short enough for the pixel arithmetic in `i32`.
pub open spec fn widths_fit(headers: Seq<Seq<char>>, rows: Seq<Seq<Seq<char>>>) -> bool {
    &&& forall|ci: int| 0 <= ci < headers.len() ==> (#[trigger] headers[ci]).len() <= 268435453
    &&& forall|r: int, ci: int|
        0 <= r < sampled(rows) && 0 <= ci < rows[r].len() ==> (#[trigger] rows[r][ci]).len()
            <= 268435453
}

/// Initial pixel widths of the table's columns, one per header: the longest
/// text, counted in characters, among the header and the first 50 rows
/// decides.
pub fn column_widths(headers: &[String], rows: &[Vec<String>]) -> (res: Vec<i32>)
    requires
        widths_fit(headers.deep_view(), rows.deep_view()),
    ensures
        res@.len() == headers@.len(),
        forall|ci: int|
            0 <= ci < res@.len() ==> #[trigger] res@[ci] as int == width_for(
                widest(headers.deep_view(), rows.deep_view(), ci, sampled(rows.deep_view())),
            ),
{
    let ghost h = headers.deep_view();
    let ghost rs = rows.deep_view();
    let nrows = if rows.len() < 50 {
        rows.len()
    } else {
        50
    };
    let mut widths: Vec<i32> = Vec::new();
    let mut ci: usize = 0;
    while ci < headers.len()
        invariant
            h == headers.deep_view(),
            rs == rows.deep_view(),
            widths_fit(h, rs),
            nrows as int == sampled(rs),
            ci <= headers@.len(),
            widths@.len() == ci,
            forall|j: int|
                0 <= j < ci ==> #[trigger] widths@[j] as int == width_for(
                    widest(h, rs, j, sampled(rs)),
                ),
        decreases headers.len() - ci,
    {
        assert(h[ci as int] == headers@[ci as int]@);
        let mut max_len: usize = headers[ci].as_str().unicode_len();
        let mut k: usize = 0;
        while k < nrows
            invariant
                h == headers.deep_view(),
                rs == rows.deep_view(),
                widths_fit(h, rs),
                nrows as int == sampled(rs),
                nrows <= rows@.len(),
                ci < headers@.len(),
                k <= nrows,
                max_len as nat == widest(h, rs, ci as int, k as int),
                max_len <= 268435453,
            decreases nrows - k,
        {
            assert(rs[k as int] == rows@[k as int].deep_view());
            if ci < rows[k].len() {
                assert(rs[k as int][ci as int] == rows@[k as int]@[ci as int]@);
                let here = rows[k][ci].as_str().unicode_len();
                if here > max_len {
                    max_len = here;
                }
            }
            k = k + 1;
        }
        let w: i32 = (max_len as i32) * 8 + 16;
        let w = if w < 60 {
            60
        } else if w > 300 {
            300
        } else {
            w
        };
        widths.push(w);
        ci = ci + 1;
    }
    widths
}

/// The window title: the file's name (or "Untitled"), with `*` after it
/// while there are unsaved changes.
pub fn window_title(file_name: Option<&str>, dirty: bool) -> (res: String)
    ensures
        res@ == match file_name {
            Some(n) => n@,
            None => "Untitled"@,
        } + if dirty {
            "*"@
        } else {
            Seq::<char>::empty()
        },
{
    let mut title = match file_name {
        Some(n) => String::from_str(n),
        None => String::from_str("Untitled"),
    };
    if dirty {
        title.append("*");
    } else {
        assert(title@ + Seq::<char>::empty() =~= title@);
    }
    title
}

/// The length in column `ci` of row `k`: 0 when the row is too short.
pub open spec fn field_len(rows: Seq<Seq<Seq<char>>>, k: int, ci: int) -> nat {
    if 0 <= ci < rows[k].len() {
        rows[k][ci].len()
    } else {
        0
    }
}

proof fn lemma_widest(headers: Seq<Seq<char>>, rows: Seq<Seq<Seq<char>>>, ci: int, n: int)
    requires
        0 <= ci < headers.len(),
        0 <= n <= rows.len(),
    ensures
        widest(headers, rows, ci, n) >= headers[ci].len(),
        forall|k: int| 0 <= k < n ==> widest(headers, rows, ci, n) >= #[trigger] field_len(rows, k, ci),
        widest(headers, rows, ci, n) == headers[ci].len() || exists|k: int|
            0 <= k < n && widest(headers, rows, ci, n) == #[trigger] field_len(rows, k, ci),
    decreases n,
{
    if n > 0 {
        lemma_widest(headers, rows, ci, n - 1);
        let m = widest(headers, rows, ci, n);
        if m != headers[ci].len() && m != widest(headers, rows, ci, n - 1) {
            assert(m == field_len(rows, n - 1, ci));
        }
        if m == widest(headers, rows, ci, n - 1) && m != headers[ci].len() {
            let k = choose|k: int| 0 <= k < n - 1 && widest(headers, rows, ci, n - 1) == #[trigger] field_len(rows, k, ci);
            assert(m == field_len(rows, k, ci));
        }
    }
}

/// The text a column's width is computed from is its longest: at least as
/// long, in characters, as the header and every one of the first 50 rows
/// (at most all rows) in that column, and as long as one of them.
pub proof fn law_column_width_follows_longest_text(
    headers: Seq<Seq<char>>,
    rows: Seq<Seq<Seq<char>>>,
    ci: int,
)
    requires
        0 <= ci < headers.len(),
    ensures
        sampled(rows) == if rows.len() < 50 {
            rows.len() as int
        } else {
            50
        },
        ({
            let m = widest(headers, rows, ci, sampled(rows));
            &&& m >= headers[ci].len()
            &&& forall|k: int|
                0 <= k < sampled(rows) && ci < rows[k].len() ==> m >= (#[trigger] rows[k][ci]).len()
            &&& m == headers[ci].len() || exists|k: int|
                0 <= k < sampled(rows) && ci < rows[k].len() && m == (#[trigger] rows[k][ci]).len()
        }),
{
    let n = sampled(rows);
    lemma_widest(headers, rows, ci, n);
    let m = widest(headers, rows, ci, n);
    assert forall|k: int| 0 <= k < n && ci < rows[k].len() implies m >= (#[trigger] rows[k][ci]).len() by {
        assert(field_len(rows, k, ci) == rows[k][ci].len());
    }
    if m != headers[ci].len() {
        let k = choose|k: int| 0 <= k < n && m == #[trigger] field_len(rows, k, ci);
        if ci < rows[k].len() {
            assert(m == rows[k][ci].len());
        } else {
            assert(m == 0);
        }
    }
}

/// The pixel width for a longest text of `m` characters: 8 px a character
/// plus 16 px padding, and at least 60, at most 300 px.
pub proof fn law_width_formula(m: nat)
    ensures
        m <= 5 ==> width_for(m) == 60,
        6 <= m <= 35 ==> width_for(m) == 8 * m + 16,
        m >= 36 ==> width_for(m) == 300,
{
}

/// Column widths always lie between 60 and 300 pixels, and grow with the
/// longest text until they reach the upper bound.
pub proof fn law_width_bounds(m: nat, n: nat)
    requires
        m <= n,
    ensures
        60 <= width_for(m) <= 300,
        width_for(m) <= width_for(n),
{
}

} // verus!
