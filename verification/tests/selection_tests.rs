use dracoshell::selection::{extract_selection_text, SelectionState};

fn sel(ac: usize, ar: usize, cc: usize, cr: usize) -> SelectionState {
    SelectionState { pane_id: 1, anchor_col: ac, anchor_row: ar, cur_col: cc, cur_row: cr }
}

fn row(s: &str) -> Vec<char> {
    s.chars().collect()
}

fn text(v: Vec<char>) -> String {
    v.into_iter().collect()
}

#[test]
fn normalized_orders_endpoints() {
    assert_eq!(sel(3, 1, 5, 2).normalized(), (3, 1, 5, 2));
    assert_eq!(sel(5, 2, 3, 1).normalized(), (3, 1, 5, 2));
    assert_eq!(sel(7, 4, 2, 4).normalized(), (2, 4, 7, 4));
    assert_eq!(sel(2, 4, 2, 4).normalized(), (2, 4, 2, 4));
}

#[test]
fn single_cell_selection() {
    assert!(sel(2, 4, 2, 4).is_single_cell());
    assert!(!sel(2, 4, 3, 4).is_single_cell());
}

#[test]
fn one_row_selection() {
    let rows = vec![row("hello world ")];
    assert_eq!(text(extract_selection_text(&rows, 12, 6, 10)), "world");
    assert_eq!(text(extract_selection_text(&rows, 12, 0, 4)), "hello");
    // selecting past the last column stops at the edge, trailing blanks dropped
    assert_eq!(text(extract_selection_text(&rows, 12, 6, 40)), "world");
    assert_eq!(text(extract_selection_text(&rows, 12, 5, 5)), "");
}

#[test]
fn multi_row_selection() {
    let rows = vec![row("abc\0\0 "), row("  de  "), row("fgh   ")];
    assert_eq!(text(extract_selection_text(&rows, 6, 1, 1)), "bc\n  de\nfg");
    let rows2 = vec![row("ab\0d  "), row("xyz   ")];
    assert_eq!(text(extract_selection_text(&rows2, 6, 0, 5)), "ab d\nxyz");
}

#[test]
fn start_past_end_of_row_gives_empty_line() {
    let rows = vec![row("abc"), row("def")];
    assert_eq!(text(extract_selection_text(&rows, 3, 5, 1)), "\nde");
}
