//! The document being edited and the state of a search through it.
use vstd::prelude::*;
use crate::csv_handler::{padded_row, CsvReadResult};
use crate::encoding::{utf8_name, TextEncoding};
use crate::text::{chars_of, contains_chars, has_infix, lowercase, lowercase_chars, to_lowercase};
use vstd::arithmetic::div_mod::{lemma_mod_add_multiples_vanish, lemma_small_mod};

verus! {

#[verifier::external_type_specification]
#[verifier::external_body]
pub struct ExPathBuf(std::path::PathBuf);

// ── Direction ─────────────────────────────────────────────────────────────────

/// Step direction for match navigation.
#[derive(Clone, Copy, Debug, PartialEq, Eq, Structural)]
pub enum Direction {
    Prev,
    Next,
}

/// How a cell is shown with respect to the current search.
#[derive(Clone, Copy, Debug, PartialEq, Eq, Structural)]
pub enum Highlight {
    /// The match the navigation is on.
    Current,
    /// Any other match.
    Match,
    /// Not a match.
    Plain,
}

// ── Search model ──────────────────────────────────────────────────────────────

/// Row-major order on (row, column) positions.
pub open spec fn cell_before(a: (usize, usize), b: (usize, usize)) -> bool {
    a.0 < b.0 || (a.0 == b.0 && a.1 < b.1)
}

/// Positions in strictly increasing row-major order (hence no repeats).
pub open spec fn strictly_ordered(s: Seq<(usize, usize)>) -> bool {
    forall|i: int, j: int| 0 <= i < j < s.len() ==> cell_before(#[trigger] s[i], #[trigger] s[j])
}

/// A cell matches the (already lower-cased) query when its lower-cased text
/// contains it.
pub open spec fn cell_hit(cell: Seq<char>, q: Seq<char>) -> bool {
    has_infix(lowercase(cell), q)
}

/// Cells among the first `k` of row `r` whose (lower-cased) text contains
/// `q`, left to right.
pub open spec fn row_hits(row: Seq<Seq<char>>, r: int, q: Seq<char>, k: int) -> Seq<(usize, usize)>
    decreases k,
{
    if k <= 0 {
        seq![]
    } else if has_infix(row[k - 1], q) {
        row_hits(row, r, q, k - 1).push((r as usize, (k - 1) as usize))
    } else {
        row_hits(row, r, q, k - 1)
    }
}

/// Cells among the first `k` rows whose (lower-cased) text contains `q`, in
/// row-major order.
pub open spec fn table_hits(rows: Seq<Seq<Seq<char>>>, q: Seq<char>, k: int) -> Seq<(usize, usize)>
    decreases k,
{
    if k <= 0 {
        seq![]
    } else {
        table_hits(rows, q, k - 1) + row_hits(rows[k - 1], k - 1, q, rows[k - 1].len() as int)
    }
}

/// Every cell text of `rows`, lower-cased.
pub open spec fn lowered_table(rows: Seq<Seq<Seq<char>>>) -> Seq<Seq<Seq<char>>> {
    rows.map_values(|row: Seq<Seq<char>>| row.map_values(|c: Seq<char>| lowercase(c)))
}

/// The cells of the lower-cased table `t` that contain the lower-cased
/// query `q`; an empty query matches nothing.
pub open spec fn matches_in(t: Seq<Seq<Seq<char>>>, q: Seq<char>) -> Seq<(usize, usize)> {
    if q.len() == 0 {
        seq![]
    } else {
        table_hits(t, q, t.len() as int)
    }
}

/// All matches of the lower-cased query `q` in `rows`.
pub open spec fn search_hits(rows: Seq<Seq<Seq<char>>>, q: Seq<char>) -> Seq<(usize, usize)> {
    matches_in(lowered_table(rows), q)
}

/// The match index reached by one step from `cur` among `n` matches,
/// wrapping around at both ends.
pub open spec fn step_index(cur: int, n: int, dir: Direction) -> int {
    match dir {
        Direction::Prev => (cur - 1) % n,
        Direction::Next => (cur + 1) % n,
    }
}

proof fn lemma_row_hits(row: Seq<Seq<char>>, r: int, q: Seq<char>, k: int)
    requires
        0 <= r <= usize::MAX,
        0 <= k <= row.len(),
        row.len() <= usize::MAX + 1,
    ensures
        strictly_ordered(row_hits(row, r, q, k)),
        forall|i: int|
            0 <= i < row_hits(row, r, q, k).len() ==> (#[trigger] row_hits(row, r, q, k)[i]).0 == r
                && (row_hits(row, r, q, k)[i].1 as int) < k,
        forall|c: usize|
            #[trigger] row_hits(row, r, q, k).contains((r as usize, c)) <==> (c < k && has_infix(
                row[c as int],
                q,
            )),
    decreases k,
{
    if k > 0 {
        lemma_row_hits(row, r, q, k - 1);
        let prev = row_hits(row, r, q, k - 1);
        let cur = row_hits(row, r, q, k);
        if has_infix(row[k - 1], q) {
            assert(cur == prev.push((r as usize, (k - 1) as usize)));
            assert forall|c: usize| #[trigger] cur.contains((r as usize, c)) <==> (c < k && has_infix(row[c as int], q)) by {
                if c < k && has_infix(row[c as int], q) {
                    if c == k - 1 {
                        assert(cur[prev.len() as int] == (r as usize, c));
                    } else {
                        assert(prev.contains((r as usize, c)));
                        let j = choose|j: int| 0 <= j < prev.len() && prev[j] == (r as usize, c);
                        assert(cur[j] == (r as usize, c));
                    }
                }
                if cur.contains((r as usize, c)) {
                    let j = choose|j: int| 0 <= j < cur.len() && cur[j] == (r as usize, c);
                    if j < prev.len() {
                        assert(prev.contains((r as usize, c)));
                    }
                }
            }
        } else {
            assert forall|c: usize| #[trigger] cur.contains((r as usize, c)) <==> (c < k && has_infix(row[c as int], q)) by {
                if c < k && has_infix(row[c as int], q) {
                    assert(c != k - 1);
                    assert(prev.contains((r as usize, c)));
                }
            }
        }
    }
}

proof fn lemma_table_hits(rows: Seq<Seq<Seq<char>>>, q: Seq<char>, k: int)
    requires
        0 <= k <= rows.len(),
        rows.len() <= usize::MAX + 1,
        forall|r: int| 0 <= r < rows.len() ==> #[trigger] rows[r].len() <= usize::MAX + 1,
    ensures
        strictly_ordered(table_hits(rows, q, k)),
        forall|i: int|
            0 <= i < table_hits(rows, q, k).len() ==> ((#[trigger] table_hits(rows, q, k)[i]).0 as int) < k,
        forall|r: usize, c: usize|
            #[trigger] table_hits(rows, q, k).contains((r, c)) <==> (r < k && c < rows[r as int].len()
                && has_infix(rows[r as int][c as int], q)),
    decreases k,
{
    if k > 0 {
        lemma_table_hits(rows, q, k - 1);
        let a = table_hits(rows, q, k - 1);
        let b = row_hits(rows[k - 1], k - 1, q, rows[k - 1].len() as int);
        lemma_row_hits(rows[k - 1], k - 1, q, rows[k - 1].len() as int);
        let t = table_hits(rows, q, k);
        assert(t == a + b);
        assert forall|i: int, j: int| 0 <= i < j < t.len() implies cell_before(#[trigger] t[i], #[trigger] t[j]) by {
            if j < a.len() {
                assert(cell_before(a[i], a[j]));
            } else if i >= a.len() {
                assert(cell_before(b[i - a.len()], b[j - a.len()]));
            } else {
                assert(a[i] == t[i]);
                assert((a[i].0 as int) < k - 1);
                assert(b[j - a.len()].0 == k - 1);
            }
        }
        assert forall|i: int| 0 <= i < t.len() implies ((#[trigger] t[i]).0 as int) < k by {
            if i < a.len() {
                assert(t[i] == a[i]);
            } else {
                assert(t[i] == b[i - a.len()]);
            }
        }
        assert forall|r: usize, c: usize| #[trigger] t.contains((r, c)) <==> (r < k && c < rows[r as int].len() && has_infix(rows[r as int][c as int], q)) by {
            if t.contains((r, c)) {
                let j = choose|j: int| 0 <= j < t.len() && t[j] == (r, c);
                if j < a.len() {
                    assert(a[j] == (r, c));
                    assert(a.contains((r, c)));
                } else {
                    assert(b[j - a.len()] == (r, c));
                    assert(r as int == k - 1);
                    assert(b.contains(((k - 1) as usize, c)));
                }
            }
            if r < k && c < rows[r as int].len() && has_infix(rows[r as int][c as int], q) {
                if (r as int) < k - 1 {
                    assert(a.contains((r, c)));
                    let j = choose|j: int| 0 <= j < a.len() && a[j] == (r, c);
                    assert(t[j] == (r, c));
                } else {
                    assert(((k - 1) as usize) == r);
                    assert(b.contains(((k - 1) as usize, c)));
                    let j = choose|j: int| 0 <= j < b.len() && b[j] == (r, c);
                    assert(t[a.len() + j] == (r, c));
                }
            }
        }
    }
}

/// A search finds exactly the cells whose lower-cased text contains the
/// lower-cased query, each once, in row-major order.
pub proof fn law_search_finds_exactly_matching_cells(rows: Seq<Seq<Seq<char>>>, q: Seq<char>)
    requires
        q.len() > 0,
        rows.len() <= usize::MAX,
        forall|r: int| 0 <= r < rows.len() ==> #[trigger] rows[r].len() <= usize::MAX,
    ensures
        strictly_ordered(search_hits(rows, q)),
        forall|r: usize, c: usize|
            #[trigger] search_hits(rows, q).contains((r, c)) <==> (r < rows.len() && c
                < rows[r as int].len() && cell_hit(rows[r as int][c as int], q)),
{
    let t = lowered_table(rows);
    lemma_table_hits(t, q, rows.len() as int);
    assert forall|r: int| 0 <= r < t.len() implies #[trigger] t[r].len() == rows[r].len() && (forall|
        c: int,
    | 0 <= c < rows[r].len() ==> #[trigger] t[r][c] == lowercase(rows[r][c])) by {}
}

/// A cell is a match exactly when the lower-cased query occurs in the
/// lower-cased cell text as one contiguous run of characters.
pub proof fn law_match_is_contiguous_run(rows: Seq<Seq<Seq<char>>>, q: Seq<char>)
    requires
        q.len() > 0,
        rows.len() <= usize::MAX,
        forall|r: int| 0 <= r < rows.len() ==> #[trigger] rows[r].len() <= usize::MAX,
    ensures
        forall|r: usize, c: usize|
            #[trigger] search_hits(rows, q).contains((r, c)) <==> (r < rows.len() && c
                < rows[r as int].len() && exists|i: int|
                0 <= i && i + q.len() <= lowercase(rows[r as int][c as int]).len()
                    && #[trigger] lowercase(rows[r as int][c as int]).subrange(i, i + q.len()) == q),
{
    law_search_finds_exactly_matching_cells(rows, q);
}

/// An empty query matches nothing.
pub proof fn law_empty_query_matches_nothing(rows: Seq<Seq<Seq<char>>>)
    ensures
        search_hits(rows, Seq::<char>::empty()).len() == 0,
{
}

/// Stepping to the next match and back (or back and then on) returns to
/// the match one started from, and every step lands on a match.
pub proof fn law_step_back_undoes_step(cur: int, n: int)
    requires
        0 <= cur < n,
    ensures
        0 <= step_index(cur, n, Direction::Next) < n,
        0 <= step_index(cur, n, Direction::Prev) < n,
        step_index(step_index(cur, n, Direction::Next), n, Direction::Prev) == cur,
        step_index(step_index(cur, n, Direction::Prev), n, Direction::Next) == cur,
{
    let next = step_index(cur, n, Direction::Next);
    let prev = step_index(cur, n, Direction::Prev);
    if cur + 1 == n {
        assert((cur + 1) % n == 0) by (nonlinear_arith)
            requires cur + 1 == n, n > 0;
    } else {
        assert((cur + 1) % n == cur + 1) by (nonlinear_arith)
            requires 0 <= cur, cur + 1 < n;
    }
    if cur == 0 {
        assert((cur - 1) % n == n - 1) by (nonlinear_arith)
            requires cur == 0, n > 0;
    } else {
        assert((cur - 1) % n == cur - 1) by (nonlinear_arith)
            requires 0 < cur < n;
    }
    if next == 0 {
        assert((next - 1) % n == n - 1) by (nonlinear_arith)
            requires next == 0, n > 0;
    } else {
        assert((next - 1) % n == next - 1) by (nonlinear_arith)
            requires 0 < next < n;
    }
    if prev + 1 == n {
        assert((prev + 1) % n == 0) by (nonlinear_arith)
            requires prev + 1 == n, n > 0;
    } else {
        assert((prev + 1) % n == prev + 1) by (nonlinear_arith)
            requires 0 <= prev, prev + 1 < n;
    }
}

/// One occurrence of `t` inside `s` and one of `u` inside `t` give one of
/// `u` inside `s`.
proof fn lemma_infix_transitive(s: Seq<char>, t: Seq<char>, u: Seq<char>)
    requires
        has_infix(s, t),
        has_infix(t, u),
    ensures
        has_infix(s, u),
{
    let i = choose|i: int| 0 <= i && i + t.len() <= s.len() && #[trigger] s.subrange(i, i + t.len()) == t;
    let j = choose|j: int| 0 <= j && j + u.len() <= t.len() && #[trigger] t.subrange(j, j + u.len()) == u;
    assert(s.subrange(i + j, i + j + u.len()) =~= u) by {
        assert forall|k: int| 0 <= k < u.len() implies s.subrange(i + j, i + j + u.len())[k] == u[k] by {
            assert(t.subrange(j, j + u.len())[k] == t[j + k]);
            assert(s.subrange(i, i + t.len())[j + k] == s[i + j + k]);
        }
    }
}

/// The matches of `q2` in row `r` are those of `q1` whose cell also holds
/// `q2`, when `q2` contains `q1`.
proof fn lemma_row_hits_narrow(
    rows: Seq<Seq<Seq<char>>>,
    r: int,
    q1: Seq<char>,
    q2: Seq<char>,
    k: int,
)
    requires
        0 <= r < rows.len(),
        r <= usize::MAX,
        0 <= k <= rows[r].len(),
        rows[r].len() <= usize::MAX + 1,
        has_infix(q2, q1),
    ensures
        row_hits(lowered_table(rows)[r], r, q2, k) == row_hits(lowered_table(rows)[r], r, q1, k).filter(
            |p: (usize, usize)| cell_hit(cell_at(rows, p.0 as int, p.1 as int), q2),
        ),
    decreases k,
{
    let pred = |p: (usize, usize)| cell_hit(cell_at(rows, p.0 as int, p.1 as int), q2);
    let row = lowered_table(rows)[r];
    if k == 0 {
        reveal(Seq::filter);
    } else {
        lemma_row_hits_narrow(rows, r, q1, q2, k - 1);
        let prev = row_hits(row, r, q1, k - 1);
        let p = (r as usize, (k - 1) as usize);
        assert(row[k - 1] == lowercase(rows[r][k - 1]));
        assert(cell_at(rows, p.0 as int, p.1 as int) == rows[r][k - 1]);
        if has_infix(row[k - 1], q1) {
            prev.lemma_filter_push(p, pred);
        } else if has_infix(row[k - 1], q2) {
            lemma_infix_transitive(row[k - 1], q2, q1);
        }
    }
}

proof fn lemma_table_hits_narrow(rows: Seq<Seq<Seq<char>>>, q1: Seq<char>, q2: Seq<char>, k: int)
    requires
        0 <= k <= rows.len(),
        rows.len() <= usize::MAX,
        forall|r: int| 0 <= r < rows.len() ==> #[trigger] rows[r].len() <= usize::MAX,
        has_infix(q2, q1),
    ensures
        table_hits(lowered_table(rows), q2, k) == table_hits(lowered_table(rows), q1, k).filter(
            |p: (usize, usize)| cell_hit(cell_at(rows, p.0 as int, p.1 as int), q2),
        ),
    decreases k,
{
    let pred = |p: (usize, usize)| cell_hit(cell_at(rows, p.0 as int, p.1 as int), q2);
    let t = lowered_table(rows);
    if k == 0 {
        reveal(Seq::filter);
    } else {
        lemma_table_hits_narrow(rows, q1, q2, k - 1);
        assert(t[k - 1].len() == rows[k - 1].len());
        lemma_row_hits_narrow(rows, k - 1, q1, q2, rows[k - 1].len() as int);
        Seq::filter_distributes_over_add(
            table_hits(t, q1, k - 1),
            row_hits(t[k - 1], k - 1, q1, t[k - 1].len() as int),
            pred,
        );
    }
}

/// Narrowing a query never gains matches: when the lower-cased query `q2`
/// contains the non-empty lower-cased query `q1`, the matches of `q2` are
/// exactly the matches of `q1`, in the same order, whose cell also holds
/// `q2`; so each of them is a match of `q1`.
pub proof fn law_narrower_query_never_gains_matches(
    rows: Seq<Seq<Seq<char>>>,
    q1: Seq<char>,
    q2: Seq<char>,
)
    requires
        q1.len() > 0,
        has_infix(q2, q1),
        rows.len() <= usize::MAX,
        forall|r: int| 0 <= r < rows.len() ==> #[trigger] rows[r].len() <= usize::MAX,
    ensures
        search_hits(rows, q2) == search_hits(rows, q1).filter(
            |p: (usize, usize)| cell_hit(cell_at(rows, p.0 as int, p.1 as int), q2),
        ),
        forall|p: (usize, usize)|
            #[trigger] search_hits(rows, q2).contains(p) ==> search_hits(rows, q1).contains(p),
{
    let pred = |p: (usize, usize)| cell_hit(cell_at(rows, p.0 as int, p.1 as int), q2);
    assert(q2.len() > 0);
    lemma_table_hits_narrow(rows, q1, q2, rows.len() as int);
    assert forall|p: (usize, usize)| #[trigger] search_hits(rows, q2).contains(p) implies search_hits(
        rows,
        q1,
    ).contains(p) by {
        search_hits(rows, q1).lemma_filter_contains_rev(pred, p);
    }
}

/// Where the navigation stands after `k` steps forward from `cur` among `n`
/// matches.
pub open spec fn steps_forward(cur: int, n: int, k: nat) -> int
    decreases k,
{
    if k == 0 {
        cur
    } else {
        step_index(steps_forward(cur, n, (k - 1) as nat), n, Direction::Next)
    }
}

/// Some of the first `n` steps forward from `cur` lands on match `j`.
pub open spec fn reached_within(cur: int, n: int, j: int) -> bool {
    exists|k: nat| 1 <= k <= n && #[trigger] steps_forward(cur, n, k) == j
}

proof fn lemma_steps_forward(cur: int, n: int, k: nat)
    requires
        0 <= cur < n,
        k <= n,
    ensures
        steps_forward(cur, n, k) == if cur + k < n {
            cur + k
        } else {
            cur + k - n
        },
    decreases k,
{
    if k > 0 {
        lemma_steps_forward(cur, n, (k - 1) as nat);
        let s = steps_forward(cur, n, (k - 1) as nat);
        if s + 1 == n {
            assert((s + 1) % n == 0) by (nonlinear_arith)
                requires s + 1 == n, n > 0;
        } else {
            assert((s + 1) % n == s + 1) by (nonlinear_arith)
                requires 0 <= s, s + 1 < n;
        }
    }
}

/// Stepping forward through `n` matches from match `cur`: after `k` steps
/// (up to `n`) the navigation is on match `(cur + k) % n`; the `n` steps
/// land on every match exactly once, and the last of them returns to `cur`.
pub proof fn law_steps_visit_every_match_once(cur: int, n: int)
    requires
        0 <= cur < n,
    ensures
        forall|k: nat| k <= n ==> #[trigger] steps_forward(cur, n, k) == (cur + k) % n,
        steps_forward(cur, n, n as nat) == cur,
        forall|j: int| 0 <= j < n ==> #[trigger] reached_within(cur, n, j),
        forall|k1: nat, k2: nat|
            1 <= k1 < k2 <= n ==> #[trigger] steps_forward(cur, n, k1) != #[trigger] steps_forward(
                cur,
                n,
                k2,
            ),
{
    assert forall|k: nat| k <= n implies #[trigger] steps_forward(cur, n, k) == (cur + k) % n by {
        lemma_steps_forward(cur, n, k);
        if cur + k < n {
            lemma_small_mod((cur + k) as nat, n as nat);
        } else {
            lemma_mod_add_multiples_vanish(cur + k - n, n);
            lemma_small_mod((cur + k - n) as nat, n as nat);
        }
    }
    lemma_steps_forward(cur, n, n as nat);
    assert forall|j: int| 0 <= j < n implies #[trigger] reached_within(cur, n, j) by {
        let k: nat = if j > cur {
            (j - cur) as nat
        } else {
            (j + n - cur) as nat
        };
        lemma_steps_forward(cur, n, k);
        assert(steps_forward(cur, n, k) == j);
    }
    assert forall|k1: nat, k2: nat| 1 <= k1 < k2 <= n implies #[trigger] steps_forward(cur, n, k1)
        != #[trigger] steps_forward(cur, n, k2) by {
        lemma_steps_forward(cur, n, k1);
        lemma_steps_forward(cur, n, k2);
    }
}

/// All search-related fields.
///
/// `query` holds the lower-cased form of the user's input: matching is
/// case-insensitive.  `matches` lists every match in row-major order, which
/// both serves navigation and allows lookup by binary search.
/// `current_match` indexes into `matches`.
#[derive(Debug)]
pub struct SearchState {
    query: String,
    matches: Vec<(usize, usize)>,
    current_match: Option<usize>,
}

impl SearchState {
    #[verifier::type_invariant]
    spec fn consistent(self) -> bool {
        &&& strictly_ordered(self.matches@)
        &&& (self.current_match is Some <==> self.matches@.len() > 0)
        &&& (self.current_match matches Some(i) ==> i < self.matches@.len())
    }

    pub closed spec fn query_view(self) -> Seq<char> {
        self.query@
    }

    pub closed spec fn matches_view(self) -> Seq<(usize, usize)> {
        self.matches@
    }

    pub closed spec fn current_view(self) -> Option<usize> {
        self.current_match
    }

    /// No query, no matches.
    pub open spec fn is_cleared(self) -> bool {
        &&& self.query_view() == Seq::<char>::empty()
        &&& self.matches_view() == Seq::<(usize, usize)>::empty()
        &&& self.current_view() is None
    }

    /// The empty search.
    pub fn new() -> (res: SearchState)
        ensures
            res.is_cleared(),
    {
        SearchState { query: String::new(), matches: Vec::new(), current_match: None }
    }

    /// Forget the query and all matches.
    pub fn clear(&mut self)
        ensures
            final(self).is_cleared(),
    {
        *self = SearchState::new();
    }

    /// The lower-cased query.
    pub fn query(&self) -> (res: &str)
        ensures
            res@ == self.query_view(),
    {
        self.query.as_str()
    }

    /// Every match, in row-major order.
    pub fn matches(&self) -> (res: &[(usize, usize)])
        ensures
            res@ == self.matches_view(),
            strictly_ordered(res@),
    {
        proof {
            use_type_invariant(self);
        }
        self.matches.as_slice()
    }

    /// The index in `matches` of the current match.
    pub fn current_match(&self) -> (res: Option<usize>)
        ensures
            res == self.current_view(),
            res is Some <==> self.matches_view().len() > 0,
            res matches Some(i) ==> i < self.matches_view().len(),
    {
        proof {
            use_type_invariant(self);
        }
        self.current_match
    }

    /// Is (`row`, `col`) one of the matches?  Binary search over the ordered
    /// match list.
    pub fn is_match(&self, row: usize, col: usize) -> (res: bool)
        ensures
            res == self.matches_view().contains((row, col)),
    {
        proof {
            use_type_invariant(self);
        }
        let target = (row, col);
        let mut lo: usize = 0;
        let mut hi: usize = self.matches.len();
        while lo < hi
            invariant
                lo <= hi <= self.matches@.len(),
                target == (row, col),
                strictly_ordered(self.matches@),
                forall|k: int| 0 <= k < lo ==> cell_before(#[trigger] self.matches@[k], target),
                forall|k: int|
                    hi <= k < self.matches@.len() ==> cell_before(target, #[trigger] self.matches@[k]),
            decreases hi - lo,
        {
            let mid = lo + (hi - lo) / 2;
            let m = self.matches[mid];
            assert(m == self.matches@[mid as int]);
            let r = m.0;
            let c = m.1;
            if r == row && c == col {
                assert(self.matches@[mid as int] == target);
                return true;
            }
            if r < row || (r == row && c < col) {
                lo = mid + 1;
            } else {
                hi = mid;
            }
        }
        assert(!self.matches@.contains(target)) by {
            if self.matches@.contains(target) {
                let k = choose|k: int| 0 <= k < self.matches@.len() && self.matches@[k] == target;
                assert(cell_before(self.matches@[k], target) || cell_before(target, self.matches@[k]));
            }
        }
        false
    }
}

impl Default for SearchState {
    fn default() -> (res: SearchState)
        ensures
            res.is_cleared(),
    {
        SearchState::new()
    }
}

/// How the cell (`row`, `col`) is highlighted by `search`.
pub open spec fn highlight_of(search: SearchState, row: usize, col: usize) -> Highlight {
    if search.current_view() matches Some(i) && search.matches_view()[i as int] == (row, col) {
        Highlight::Current
    } else if search.matches_view().contains((row, col)) {
        Highlight::Match
    } else {
        Highlight::Plain
    }
}

/// A cell is highlighted exactly when it is a match, and the current match
/// is the one highlighted as current.
pub proof fn law_highlight_marks_exactly_matches(search: SearchState, row: usize, col: usize)
    requires
        search.current_view() matches Some(i) ==> i < search.matches_view().len(),
    ensures
        highlight_of(search, row, col) != Highlight::Plain <==> search.matches_view().contains((row, col)),
        highlight_of(search, row, col) == Highlight::Current <==> (search.current_view() matches Some(i)
            && search.matches_view()[i as int] == (row, col)),
{
    if search.current_view() matches Some(i) && search.matches_view()[i as int] == (row, col) {
        assert(search.matches_view().contains((row, col)));
    }
}

/// The lower-cased text of every cell, row by row.
pub fn lowered_cells(rows: &Vec<Vec<String>>) -> (res: Vec<Vec<Vec<char>>>)
    ensures
        res.deep_view() == lowered_table(rows.deep_view()),
{
    let ghost all = lowered_table(rows.deep_view());
    let mut out: Vec<Vec<Vec<char>>> = Vec::new();
    let mut r: usize = 0;
    while r < rows.len()
        invariant
            all == lowered_table(rows.deep_view()),
            r <= rows.len(),
            out.deep_view() == all.take(r as int),
        decreases rows.len() - r,
    {
        let row = &rows[r];
        assert(all[r as int] == row.deep_view().map_values(|c: Seq<char>| lowercase(c)));
        let mut cells: Vec<Vec<char>> = Vec::new();
        let mut c: usize = 0;
        while c < row.len()
            invariant
                all == lowered_table(rows.deep_view()),
                r < rows.len(),
                row == rows@[r as int],
                all[r as int] == row.deep_view().map_values(|c: Seq<char>| lowercase(c)),
                c <= row.len(),
                cells.deep_view() == all[r as int].take(c as int),
            decreases row.len() - c,
        {
            let cell = lowercase_chars(row[c].as_str());
            assert(row.deep_view()[c as int] == row@[c as int]@);
            assert(cell.deep_view() =~= cell@);
            let ghost before = cells.deep_view();
            cells.push(cell);
            assert(cells.deep_view() =~= before.push(cell@));
            assert(all[r as int].take(c + 1) =~= all[r as int].take(c as int).push(cell@));
            c = c + 1;
        }
        assert(cells.deep_view() =~= all[r as int]);
        let ghost before = out.deep_view();
        out.push(cells);
        assert(out.deep_view() =~= before.push(all[r as int]));
        assert(all.take(r + 1) =~= all.take(r as int).push(all[r as int]));
        r = r + 1;
    }
    assert(all.take(rows.len() as int) =~= all);
    out
}

/// The cells of the lower-cased table `t` that contain the lower-cased
/// query `q`, in row-major order; an empty query matches nothing.
pub fn find_matches(t: &Vec<Vec<Vec<char>>>, q: &Vec<char>) -> (res: Vec<(usize, usize)>)
    ensures
        res@ == matches_in(t.deep_view(), q@),
        strictly_ordered(res@),
{
    let ghost tv = t.deep_view();
    let mut found: Vec<(usize, usize)> = Vec::new();
    if q.len() == 0 {
        return found;
    }
    let mut r: usize = 0;
    while r < t.len()
        invariant
            tv == t.deep_view(),
            q@.len() > 0,
            r <= t.len(),
            found@ == table_hits(tv, q@, r as int),
            strictly_ordered(found@),
            forall|k: int| 0 <= k < found@.len() ==> (#[trigger] found@[k]).0 < r,
        decreases t.len() - r,
    {
        let ghost base = found@;
        let row = &t[r];
        assert(tv[r as int] == row.deep_view());
        let mut c: usize = 0;
        while c < row.len()
            invariant
                tv == t.deep_view(),
                row == t@[r as int],
                tv[r as int] == row.deep_view(),
                r < t.len(),
                c <= row.len(),
                found@ == base + row_hits(tv[r as int], r as int, q@, c as int),
                strictly_ordered(found@),
                forall|k: int| 0 <= k < found@.len() ==> cell_before(#[trigger] found@[k], (r, c)),
            decreases row.len() - c,
        {
            assert(tv[r as int][c as int] =~= row@[c as int]@);
            if contains_chars(&row[c], q) {
                found.push((r, c));
                assert(found@ =~= base + row_hits(tv[r as int], r as int, q@, c + 1));
            }
            c = c + 1;
        }
        assert(found@ =~= table_hits(tv, q@, r + 1));
        r = r + 1;
    }
    found
}

// ── Document state ────────────────────────────────────────────────────────────

/// The text of cell (`r`, `c`): empty outside the rows and beyond the end of
/// a short row.
pub open spec fn cell_at(rows: Seq<Seq<Seq<char>>>, r: int, c: int) -> Seq<char> {
    if 0 <= r < rows.len() && 0 <= c < rows[r].len() {
        rows[r][c]
    } else {
        Seq::<char>::empty()
    }
}

/// `row` after its field `col` is set to `text`, padded with empty fields as
/// far as needed.
pub open spec fn edited_row(row: Seq<Seq<char>>, col: int, text: Seq<char>) -> Seq<Seq<char>> {
    padded_row(row, (col + 1) as nat).update(col, text)
}

/// After cell (`r`, `c`) is edited it reads back the new text, and every
/// other cell reads as before (padding only adds empty cells).
pub proof fn law_edit_reads_back(
    rows: Seq<Seq<Seq<char>>>,
    r: int,
    c: int,
    text: Seq<char>,
    r2: int,
    c2: int,
)
    requires
        0 <= r < rows.len(),
        0 <= c,
    ensures
        cell_at(rows.update(r, edited_row(rows[r], c, text)), r2, c2) == if r2 == r && c2 == c {
            text
        } else {
            cell_at(rows, r2, c2)
        },
{
    let row = rows[r];
    let padded = padded_row(row, (c + 1) as nat);
    let new_rows = rows.update(r, edited_row(row, c, text));
    assert(padded.len() >= c + 1);
    assert(padded.len() >= row.len());
    assert forall|k: int| 0 <= k < padded.len() implies #[trigger] padded[k] == if k < row.len() {
        row[k]
    } else {
        Seq::<char>::empty()
    } by {}
    if r2 == r && 0 <= c2 && c2 != c && c2 >= row.len() && c2 < padded.len() {
        assert(cell_at(new_rows, r2, c2) == padded[c2]);
    }
}

#[derive(Debug)]
pub struct State {
    pub path: Option<std::path::PathBuf>,
    pub separator: u8,
    pub headers: Vec<String>,
    pub rows: Vec<Vec<String>>,
    pub dirty: bool,
    pub search: SearchState,
    pub encoding: TextEncoding,
    pub encoding_bom: bool,
}

impl Default for State {
    fn default() -> (res: State)
        ensures
            res.path is None,
            res.separator == 0x2Cu8,
            res.headers@.len() == 0,
            res.rows@.len() == 0,
            !res.dirty,
            res.search.is_cleared(),
            res.encoding@ == utf8_name(),
            !res.encoding_bom,
    {
        State {
            path: None,
            separator: 0x2Cu8,
            headers: Vec::new(),
            rows: Vec::new(),
            dirty: false,
            search: SearchState::new(),
            encoding: TextEncoding::utf8(),
            encoding_bom: false,
        }
    }
}

impl State {
    /// An empty document: no file, `,` as separator, UTF-8 without
    /// byte-order mark, nothing to save and no search.
    pub fn new() -> (res: State)
        ensures
            res.path is None,
            res.separator == 0x2Cu8,
            res.headers@.len() == 0,
            res.rows@.len() == 0,
            !res.dirty,
            res.search.is_cleared(),
            res.encoding@ == utf8_name(),
            !res.encoding_bom,
    {
        State::default()
    }

    /// Forget the search; the document is untouched.
    pub fn clear_search(&mut self)
        ensures
            final(self).search.is_cleared(),
            final(self).path == old(self).path,
            final(self).separator == old(self).separator,
            final(self).headers == old(self).headers,
            final(self).rows == old(self).rows,
            final(self).dirty == old(self).dirty,
            final(self).encoding == old(self).encoding,
            final(self).encoding_bom == old(self).encoding_bom,
    {
        self.search.clear();
    }

    /// Recompute the matches of `query` across all rows and columns, case
    /// insensitively, and put the navigation on the first one.  Returns the
    /// row of the first match (if any) for scrolling.
    pub fn update_search(&mut self, query: &str) -> (res: Option<usize>)
        ensures
            final(self).search.query_view() == lowercase(query@),
            query@.len() == 0 ==> final(self).search.query_view().len() == 0,
            final(self).search.matches_view() == search_hits(
                old(self).rows.deep_view(),
                lowercase(query@),
            ),
            final(self).search.current_view() == if final(self).search.matches_view().len() == 0 {
                None::<usize>
            } else {
                Some(0usize)
            },
            res == if final(self).search.matches_view().len() == 0 {
                None::<usize>
            } else {
                Some(final(self).search.matches_view()[0].0)
            },
            final(self).path == old(self).path,
            final(self).separator == old(self).separator,
            final(self).headers == old(self).headers,
            final(self).rows == old(self).rows,
            final(self).dirty == old(self).dirty,
            final(self).encoding == old(self).encoding,
            final(self).encoding_bom == old(self).encoding_bom,
    {
        let low = to_lowercase(query);
        let q = chars_of(low.as_str());
        let lowered = lowered_cells(&self.rows);
        let found = find_matches(&lowered, &q);
        let current_match = if found.len() == 0 {
            None
        } else {
            Some(0usize)
        };
        let first = if found.len() == 0 {
            None
        } else {
            Some(found[0].0)
        };
        self.search = SearchState { query: low, matches: found, current_match };
        first
    }

    /// Move the current match one step in `dir`, wrapping around, and return
    /// the row of the new current match.  Does nothing without matches.
    pub fn step_match(&mut self, dir: Direction) -> (res: Option<usize>)
        ensures
            ({
                let n = old(self).search.matches_view().len() as int;
                if n == 0 {
                    &&& res is None
                    &&& final(self).search == old(self).search
                } else {
                    let next = step_index(old(self).search.current_view()->Some_0 as int, n, dir);
                    &&& final(self).search.current_view() == Some(next as usize)
                    &&& res == Some(final(self).search.matches_view()[next].0)
                    &&& final(self).search.matches_view() == old(self).search.matches_view()
                    &&& final(self).search.query_view() == old(self).search.query_view()
                }
            }),
            final(self).path == old(self).path,
            final(self).separator == old(self).separator,
            final(self).headers == old(self).headers,
            final(self).rows == old(self).rows,
            final(self).dirty == old(self).dirty,
            final(self).encoding == old(self).encoding,
            final(self).encoding_bom == old(self).encoding_bom,
    {
        proof {
            use_type_invariant(&self.search);
        }
        let n = self.search.matches.len();
        if n == 0 {
            return None;
        }
        let cur = match self.search.current_match {
            Some(i) => i,
            None => 0,
        };
        let next = match dir {
            Direction::Prev => if cur == 0 {
                n - 1
            } else {
                cur - 1
            },
            Direction::Next => if cur + 1 == n {
                0
            } else {
                cur + 1
            },
        };
        proof {
            let ni = n as int;
            let ci = cur as int;
            if ci == 0 {
                assert((ci - 1) % ni == ni - 1) by (nonlinear_arith)
                    requires ci == 0, ni > 0;
            } else {
                assert((ci - 1) % ni == ci - 1) by (nonlinear_arith)
                    requires 0 < ci < ni;
            }
            if ci + 1 == ni {
                assert((ci + 1) % ni == 0) by (nonlinear_arith)
                    requires ci + 1 == ni, ni > 0;
            } else {
                assert((ci + 1) % ni == ci + 1) by (nonlinear_arith)
                    requires 0 <= ci, ci + 1 < ni;
            }
        }
        self.search.current_match = Some(next);
        Some(self.search.matches[next].0)
    }

    /// How cell (`row`, `col`) is highlighted: the current match, another
    /// match, or neither.
    pub fn highlight(&self, row: usize, col: usize) -> (res: Highlight)
        ensures
            res == highlight_of(self.search, row, col),
    {
        proof {
            use_type_invariant(&self.search);
        }
        if let Some(i) = self.search.current_match {
            let (r, c) = self.search.matches[i];
            if r == row && c == col {
                return Highlight::Current;
            }
        }
        if self.search.is_match(row, col) {
            Highlight::Match
        } else {
            Highlight::Plain
        }
    }

    /// The text shown in cell (`row`, `col`): empty where the document has
    /// no such cell.
    pub fn cell_text(&self, row: usize, col: usize) -> (res: String)
        ensures
            res@ == cell_at(self.rows.deep_view(), row as int, col as int),
    {
        if row < self.rows.len() && col < self.rows[row].len() {
            assert(self.rows.deep_view()[row as int][col as int] == self.rows@[row as int]@[col as int]@);
            self.rows[row][col].clone()
        } else {
            String::new()
        }
    }

    /// Commit an edit of cell (`row`, `col`): short rows are padded with
    /// empty fields, the cell takes `text` and the document becomes dirty.
    /// Returns `false`, changing nothing, when the row does not exist.
    pub fn commit_edit(&mut self, row: usize, col: usize, text: String) -> (res: bool)
        ensures
            res == (row < old(self).rows@.len()),
            res ==> final(self).rows.deep_view() == old(self).rows.deep_view().update(
                row as int,
                edited_row(old(self).rows.deep_view()[row as int], col as int, text@),
            ),
            res ==> final(self).dirty,
            !res ==> final(self).rows == old(self).rows && final(self).dirty == old(self).dirty,
            final(self).path == old(self).path,
            final(self).separator == old(self).separator,
            final(self).headers == old(self).headers,
            final(self).search == old(self).search,
            final(self).encoding == old(self).encoding,
            final(self).encoding_bom == old(self).encoding_bom,
    {
        if row >= self.rows.len() {
            return false;
        }
        let ghost old_rows = self.rows.deep_view();
        let ghost base = old_rows[row as int];
        let mut fields: Vec<String> = Vec::new();
        let mut i: usize = 0;
        while i < self.rows[row].len()
            invariant
                row < self.rows@.len(),
                old_rows == self.rows.deep_view(),
                base == old_rows[row as int],
                i <= self.rows@[row as int]@.len(),
                fields@.len() == i,
                forall|k: int| 0 <= k < i ==> #[trigger] fields@[k]@ == base[k],
            decreases self.rows@[row as int]@.len() - i,
        {
            let f = self.rows[row][i].clone();
            assert(base[i as int] == self.rows@[row as int]@[i as int]@);
            fields.push(f);
            i = i + 1;
        }
        while fields.len() <= col
            invariant
                base.len() <= fields@.len(),
                base.len() <= col ==> fields@.len() <= col + 1,
                base.len() > col ==> fields@.len() == base.len(),
                forall|k: int| 0 <= k < base.len() ==> #[trigger] fields@[k]@ == base[k],
                forall|k: int|
                    base.len() <= k < fields@.len() ==> #[trigger] fields@[k]@ == Seq::<char>::empty(),
            decreases col + 1 - fields@.len(),
        {
            fields.push(String::new());
        }
        let ghost text_view = text@;
        fields.set(col, text);
        assert(fields.deep_view() =~= edited_row(base, col as int, text_view));
        self.rows.set(row, fields);
        assert(self.rows.deep_view() =~= old_rows.update(row as int, edited_row(base, col as int, text_view)));
        self.dirty = true;
        true
    }

    /// Take in a freshly read document: it becomes the open file, with its
    /// separator and encoding, nothing to save and no search.  Returns
    /// whether the file had jagged rows, for the caller to warn about.
    pub fn load(&mut self, path: std::path::PathBuf, sep: u8, csv: CsvReadResult) -> (res: bool)
        ensures
            res == csv.had_jagged_rows,
            final(self).path == Some(path),
            final(self).separator == sep,
            final(self).headers == csv.headers,
            final(self).rows == csv.rows,
            !final(self).dirty,
            final(self).search.is_cleared(),
            final(self).encoding == csv.encoding,
            final(self).encoding_bom == csv.encoding_bom,
    {
        let jagged = csv.had_jagged_rows;
        self.path = Some(path);
        self.separator = sep;
        self.encoding = csv.encoding;
        self.encoding_bom = csv.encoding_bom;
        self.headers = csv.headers;
        self.rows = csv.rows;
        self.dirty = false;
        self.clear_search();
        jagged
    }

    /// The document was written to `path`: it is now the open file and has
    /// nothing left to save.
    pub fn mark_saved(&mut self, path: std::path::PathBuf)
        ensures
            final(self).path == Some(path),
            !final(self).dirty,
            final(self).separator == old(self).separator,
            final(self).headers == old(self).headers,
            final(self).rows == old(self).rows,
            final(self).search == old(self).search,
            final(self).encoding == old(self).encoding,
            final(self).encoding_bom == old(self).encoding_bom,
    {
        self.path = Some(path);
        self.dirty = false;
    }

    /// Re-reading the file would throw away unsaved edits: ask first.
    pub fn needs_discard_confirmation(&self) -> (res: bool)
        ensures
            res == (self.dirty && self.path is Some),
    {
        self.dirty && self.path.is_some()
    }
}

} // verus!
