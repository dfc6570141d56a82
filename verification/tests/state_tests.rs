use std::path::PathBuf;
use virgola::csv_handler::read_csv;
use virgola::state::{find_matches, lowered_cells, Direction, Highlight, SearchState, State};

fn s(v: &str) -> String {
    v.to_string()
}

fn sample_state() -> State {
    let mut st = State::new();
    st.headers = vec![s("name"), s("city")];
    st.rows = vec![
        vec![s("Alice"), s("Paris")],
        vec![s("Bob"), s("Lyon")],
        vec![s("ALIX"), s("Nice")],
    ];
    st
}

#[test]
fn new_state_is_empty() {
    let st = State::new();
    assert!(st.path.is_none());
    assert_eq!(st.separator, b',');
    assert!(st.headers.is_empty());
    assert!(st.rows.is_empty());
    assert!(!st.dirty);
    assert!(st.encoding.is_utf8());
    assert!(!st.encoding_bom);
    assert_eq!(st.search.query(), "");
    assert!(st.search.matches().is_empty());
    assert_eq!(st.search.current_match(), None);
}

#[test]
fn search_state_default_is_cleared() {
    let search = SearchState::default();
    assert_eq!(search.query(), "");
    assert!(search.matches().is_empty());
    assert_eq!(search.current_match(), None);
}

#[test]
fn update_search_is_case_insensitive_and_row_major() {
    let mut st = sample_state();
    let first = st.update_search("AL");
    assert_eq!(first, Some(0));
    assert_eq!(st.search.query(), "al");
    assert_eq!(st.search.matches(), &[(0, 0), (2, 0)]);
    assert_eq!(st.search.current_match(), Some(0));
}

#[test]
fn update_search_matches_inside_cells() {
    let mut st = sample_state();
    let first = st.update_search("o");
    // "Bob", "Lyon" in row 1; nothing in row 0 or row 2.
    assert_eq!(first, Some(1));
    assert_eq!(st.search.matches(), &[(1, 0), (1, 1)]);
}

#[test]
fn update_search_without_hits() {
    let mut st = sample_state();
    assert_eq!(st.update_search("zzz"), None);
    assert!(st.search.matches().is_empty());
    assert_eq!(st.search.current_match(), None);
}

#[test]
fn empty_query_matches_nothing() {
    let mut st = sample_state();
    st.update_search("a");
    assert_eq!(st.update_search(""), None);
    assert!(st.search.matches().is_empty());
    assert_eq!(st.search.query(), "");
}

#[test]
fn clear_search_forgets_everything() {
    let mut st = sample_state();
    st.update_search("a");
    st.clear_search();
    assert_eq!(st.search.query(), "");
    assert!(st.search.matches().is_empty());
    assert_eq!(st.search.current_match(), None);
    assert_eq!(st.rows.len(), 3);
}

#[test]
fn step_match_wraps_both_ways() {
    let mut st = sample_state();
    st.update_search("i"); // Alice(0,0), Paris(0,1), ALIX(2,0), Nice(2,1)
    assert_eq!(st.search.matches(), &[(0, 0), (0, 1), (2, 0), (2, 1)]);
    assert_eq!(st.step_match(Direction::Prev), Some(2));
    assert_eq!(st.search.current_match(), Some(3));
    assert_eq!(st.step_match(Direction::Next), Some(0));
    assert_eq!(st.search.current_match(), Some(0));
    assert_eq!(st.step_match(Direction::Next), Some(0));
    assert_eq!(st.search.current_match(), Some(1));
    assert_eq!(st.step_match(Direction::Next), Some(2));
}

#[test]
fn step_then_step_back_restores_current() {
    let mut st = sample_state();
    st.update_search("i");
    st.step_match(Direction::Next);
    let before = st.search.current_match();
    st.step_match(Direction::Next);
    st.step_match(Direction::Prev);
    assert_eq!(st.search.current_match(), before);
}

#[test]
fn step_match_without_matches_does_nothing() {
    let mut st = sample_state();
    assert_eq!(st.step_match(Direction::Next), None);
    assert_eq!(st.search.current_match(), None);
}

#[test]
fn highlight_marks_current_and_other_matches() {
    let mut st = sample_state();
    st.update_search("al");
    assert_eq!(st.highlight(0, 0), Highlight::Current);
    assert_eq!(st.highlight(2, 0), Highlight::Match);
    assert_eq!(st.highlight(1, 0), Highlight::Plain);
    assert_eq!(st.highlight(0, 1), Highlight::Plain);
    st.step_match(Direction::Next);
    assert_eq!(st.highlight(0, 0), Highlight::Match);
    assert_eq!(st.highlight(2, 0), Highlight::Current);
}

#[test]
fn is_match_uses_the_match_list() {
    let mut st = sample_state();
    st.update_search("i");
    assert!(st.search.is_match(2, 1));
    assert!(!st.search.is_match(1, 1));
    assert!(!st.search.is_match(9, 9));
}

#[test]
fn cell_text_is_empty_outside_the_document() {
    let st = sample_state();
    assert_eq!(st.cell_text(1, 1), "Lyon");
    assert_eq!(st.cell_text(1, 2), "");
    assert_eq!(st.cell_text(7, 0), "");
}

#[test]
fn commit_edit_reads_back_and_marks_dirty() {
    let mut st = sample_state();
    assert!(st.commit_edit(1, 0, s("Robert")));
    assert!(st.dirty);
    assert_eq!(st.cell_text(1, 0), "Robert");
    assert_eq!(st.cell_text(1, 1), "Lyon");
    assert_eq!(st.cell_text(0, 0), "Alice");
}

#[test]
fn commit_edit_pads_short_rows() {
    let mut st = sample_state();
    assert!(st.commit_edit(0, 4, s("x")));
    assert_eq!(st.rows[0], vec![s("Alice"), s("Paris"), s(""), s(""), s("x")]);
}

#[test]
fn commit_edit_outside_rows_changes_nothing() {
    let mut st = sample_state();
    assert!(!st.commit_edit(3, 0, s("x")));
    assert!(!st.dirty);
    assert_eq!(st.rows.len(), 3);
}

#[test]
fn load_takes_in_a_document() {
    let mut st = sample_state();
    st.dirty = true;
    st.update_search("a");
    let csv = read_csv(b"a;b\n1;2;3\n", b';', None).unwrap();
    let jagged = st.load(PathBuf::from("/tmp/doc.csv"), b';', csv);
    assert!(jagged);
    assert_eq!(st.path, Some(PathBuf::from("/tmp/doc.csv")));
    assert_eq!(st.separator, b';');
    assert_eq!(st.headers, vec![s("a"), s("b")]);
    assert_eq!(st.rows, vec![vec![s("1"), s("2"), s("3")]]);
    assert!(!st.dirty);
    assert!(st.search.matches().is_empty());
    assert!(st.encoding.is_utf8());
}

#[test]
fn discard_confirmation_needs_a_dirty_file() {
    let mut st = sample_state();
    st.dirty = true;
    assert!(!st.needs_discard_confirmation());
    st.mark_saved(PathBuf::from("/tmp/x.csv"));
    assert!(!st.dirty);
    assert!(!st.needs_discard_confirmation());
    st.commit_edit(0, 0, s("y"));
    assert!(st.needs_discard_confirmation());
}

#[test]
fn narrower_query_keeps_a_subsequence_of_matches() {
    let mut st = sample_state();
    st.update_search("a");
    let wide = st.search.matches().to_vec();
    st.update_search("Al");
    let narrow = st.search.matches().to_vec();
    assert_eq!(wide, vec![(0, 0), (0, 1), (2, 0)]);
    assert_eq!(narrow, vec![(0, 0), (2, 0)]);
    let kept: Vec<(usize, usize)> = wide.iter().copied().filter(|p| narrow.contains(p)).collect();
    assert_eq!(kept, narrow);
}

#[test]
fn n_steps_visit_every_match_once() {
    let mut st = sample_state();
    st.update_search("i");
    st.step_match(Direction::Next);
    let start = st.search.current_match().unwrap();
    let n = st.search.matches().len();
    let mut seen = Vec::new();
    for _ in 0..n {
        st.step_match(Direction::Next);
        seen.push(st.search.current_match().unwrap());
    }
    assert_eq!(seen, vec![2, 3, 0, 1]);
    assert_eq!(st.search.current_match(), Some(start));
}

#[test]
fn matching_on_lowered_cells() {
    let rows = vec![vec![s("ÀB"), s("x")], vec![], vec![s("ab"), s("aB")]];
    let lowered = lowered_cells(&rows);
    assert_eq!(lowered, vec![vec![vec!['à', 'b'], vec!['x']], vec![], vec![vec!['a', 'b'], vec!['a', 'b']]]);
    assert_eq!(find_matches(&lowered, &vec!['b']), vec![(0, 0), (2, 0), (2, 1)]);
    assert_eq!(find_matches(&lowered, &vec!['a', 'b']), vec![(2, 0), (2, 1)]);
    assert!(find_matches(&lowered, &vec![]).is_empty());
}
