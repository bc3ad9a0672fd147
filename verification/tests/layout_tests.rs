use dracoshell::layout::{Half, Layout, Split};

fn paths(l: &Layout) -> Vec<(u64, Vec<Half>)> {
    l.compute().into_iter().map(|p| (p.pane, p.path)).collect()
}

#[test]
fn new_layout_has_one_focused_pane() {
    let l = Layout::new(7);
    assert_eq!(l.leaves(), vec![7]);
    assert_eq!(l.focused(), 7);
    assert_eq!(paths(&l), vec![(7, vec![])]);
}

#[test]
fn split_inserts_new_pane_after_focused_and_focuses_it() {
    let mut l = Layout::new(1);
    l.split_focused(2, Split::Horizontal);
    assert_eq!(l.leaves(), vec![1, 2]);
    assert_eq!(l.focused(), 2);
    l.set_focused(1);
    l.split_focused(3, Split::Vertical);
    assert_eq!(l.leaves(), vec![1, 3, 2]);
    assert_eq!(l.focused(), 3);
}

#[test]
fn compute_gives_halving_paths_in_order() {
    let mut l = Layout::new(1);
    l.split_focused(2, Split::Horizontal);
    l.split_focused(3, Split::Vertical);
    let h0 = Half { split: Split::Horizontal, second: false };
    let h1 = Half { split: Split::Horizontal, second: true };
    let v0 = Half { split: Split::Vertical, second: false };
    let v1 = Half { split: Split::Vertical, second: true };
    assert_eq!(paths(&l), vec![(1, vec![h0]), (2, vec![h1, v0]), (3, vec![h1, v1])]);
}

#[test]
fn closing_the_only_pane_is_refused() {
    let mut l = Layout::new(5);
    assert!(!l.close_focused());
    assert_eq!(l.leaves(), vec![5]);
    assert_eq!(l.focused(), 5);
}

#[test]
fn close_removes_focused_and_focuses_leftmost() {
    let mut l = Layout::new(1);
    l.split_focused(2, Split::Horizontal);
    l.split_focused(3, Split::Vertical);
    assert!(l.close_focused());
    assert_eq!(l.leaves(), vec![1, 2]);
    assert_eq!(l.focused(), 1);
    l.set_focused(1);
    assert!(l.close_focused());
    assert_eq!(l.leaves(), vec![2]);
    assert_eq!(l.focused(), 2);
    assert!(!l.close_focused());
}

#[test]
fn split_then_close_restores_panes() {
    let mut l = Layout::new(1);
    l.split_focused(2, Split::Vertical);
    l.set_focused(1);
    l.split_focused(3, Split::Horizontal);
    let before = l.leaves();
    l.set_focused(2);
    l.split_focused(9, Split::Vertical);
    assert!(l.close_focused());
    assert_eq!(l.leaves(), before);
}

#[test]
fn split_of_absent_focus_only_moves_focus() {
    let mut l = Layout::new(1);
    l.set_focused(42);
    l.split_focused(2, Split::Horizontal);
    assert_eq!(l.leaves(), vec![1]);
    assert_eq!(l.focused(), 2);
}

#[test]
fn close_of_absent_focus_keeps_panes_and_moves_focus() {
    let mut l = Layout::new(1);
    l.split_focused(2, Split::Horizontal);
    l.set_focused(42);
    assert!(l.close_focused());
    assert_eq!(l.leaves(), vec![1, 2]);
    assert_eq!(l.focused(), 1);
}

#[test]
fn single_pane_refuses_close_whatever_the_focus() {
    let mut single = Layout::new(3);
    single.set_focused(4);
    assert!(!single.close_focused());
    assert_eq!(single.leaves(), vec![3]);
    assert_eq!(single.focused(), 4);
}

#[test]
fn closing_inner_pane_collapses_its_parent() {
    let mut l = Layout::new(1);
    l.split_focused(2, Split::Horizontal);
    l.split_focused(3, Split::Vertical);
    l.set_focused(2);
    assert!(l.close_focused());
    assert_eq!(l.leaves(), vec![1, 3]);
    let h0 = Half { split: Split::Horizontal, second: false };
    let h1 = Half { split: Split::Horizontal, second: true };
    assert_eq!(paths(&l), vec![(1, vec![h0]), (3, vec![h1])]);
}
