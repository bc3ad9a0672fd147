use dracoshell::layout::Split;
use dracoshell::session::{CloseOutcome, Session};

fn session_with_tab() -> (Session, u64) {
    let mut s = Session::new();
    let id = s.alloc_pane_id();
    assert!(s.is_fresh(id));
    s.open_first_tab(id);
    (s, id)
}

#[test]
fn new_session_is_empty() {
    let s = Session::new();
    assert_eq!(s.tab_count(), 0);
    assert_eq!(s.active_tab(), 0);
    assert_eq!(s.next_pane_id(), 1);
    assert_eq!(s.active_focused(), None);
}

#[test]
fn pane_ids_count_up() {
    let mut s = Session::new();
    assert_eq!(s.alloc_pane_id(), 1);
    assert_eq!(s.alloc_pane_id(), 2);
    assert_eq!(s.next_pane_id(), 3);
}

#[test]
fn fresh_ids() {
    let (mut s, id) = session_with_tab();
    assert!(!s.is_fresh(id));
    assert!(!s.is_fresh(99));
    let next = s.alloc_pane_id();
    assert!(s.is_fresh(next));
}

#[test]
fn opening_tabs_activates_them() {
    let (mut s, first) = session_with_tab();
    assert_eq!(s.active_focused(), Some(first));
    let id = s.alloc_pane_id();
    s.open_tab(id);
    assert_eq!(s.tab_count(), 2);
    assert_eq!(s.active_tab(), 1);
    assert_eq!(s.active_focused(), Some(id));
    assert_eq!(s.tab(1).panes, vec![id]);
}

#[test]
fn split_hands_out_a_new_id() {
    let mut empty = Session::new();
    assert_eq!(empty.split_focused(Split::Horizontal), None);
    let (mut s, first) = session_with_tab();
    let new_id = s.split_focused(Split::Horizontal).unwrap();
    assert_eq!(new_id, first + 1);
    assert_eq!(s.tab(0).layout.leaves(), vec![first, new_id]);
    assert_eq!(s.active_focused(), Some(new_id));
    // the terminal of the new pane is not recorded until it runs
    assert_eq!(s.tab(0).panes, vec![first]);
    s.add_pane(new_id);
    s.add_pane(new_id);
    assert_eq!(s.tab(0).panes, vec![first, new_id]);
}

#[test]
fn closing_panes_and_tabs() {
    let (mut s, first) = session_with_tab();
    let second = s.split_focused(Split::Vertical).unwrap();
    s.add_pane(second);
    match s.close_focused() {
        CloseOutcome::PaneClosed { pane, tab } => {
            assert_eq!(pane, second);
            assert_eq!(tab, 0);
        }
        other => panic!("unexpected {:?}", other),
    }
    assert_eq!(s.tab(0).panes, vec![first]);
    assert_eq!(s.tab(0).layout.leaves(), vec![first]);
    match s.close_focused() {
        CloseOutcome::TabClosed { pane, dropped, exit } => {
            assert_eq!(pane, first);
            assert!(dropped.is_empty());
            assert!(exit);
        }
        other => panic!("unexpected {:?}", other),
    }
    assert_eq!(s.tab_count(), 0);
    assert!(matches!(s.close_focused(), CloseOutcome::NoTab));
}

#[test]
fn closing_the_last_tab_activates_the_one_before() {
    let (mut s, _) = session_with_tab();
    let b = s.alloc_pane_id();
    s.open_tab(b);
    let c = s.alloc_pane_id();
    s.open_tab(c);
    assert_eq!(s.active_tab(), 2);
    match s.close_focused() {
        CloseOutcome::TabClosed { pane, exit, .. } => {
            assert_eq!(pane, c);
            assert!(!exit);
        }
        other => panic!("unexpected {:?}", other),
    }
    assert_eq!(s.active_tab(), 1);
    assert!(s.switch_tab(0));
    match s.close_focused() {
        CloseOutcome::TabClosed { exit, .. } => assert!(!exit),
        other => panic!("unexpected {:?}", other),
    }
    assert_eq!(s.active_tab(), 0);
    assert_eq!(s.active_focused(), Some(b));
}

#[test]
fn switching_and_cycling_tabs() {
    let (mut s, _) = session_with_tab();
    assert!(!s.cycle_tab(true));
    for _ in 0..2 {
        let id = s.alloc_pane_id();
        s.open_tab(id);
    }
    assert_eq!(s.active_tab(), 2);
    assert!(s.cycle_tab(true));
    assert_eq!(s.active_tab(), 0);
    assert!(s.cycle_tab(false));
    assert_eq!(s.active_tab(), 2);
    assert!(s.cycle_tab(false));
    assert_eq!(s.active_tab(), 1);
    assert!(!s.switch_tab(1));
    assert!(!s.switch_tab(7));
    assert!(s.switch_tab(0));
    assert_eq!(s.active_tab(), 0);
}

#[test]
fn cycling_forward_then_back_returns() {
    let (mut s, _) = session_with_tab();
    for _ in 0..3 {
        let id = s.alloc_pane_id();
        s.open_tab(id);
    }
    for start in 0..4 {
        s.switch_tab(start);
        s.cycle_tab(true);
        s.cycle_tab(false);
        assert_eq!(s.active_tab(), start);
    }
}

#[test]
fn finding_panes_and_events() {
    let (mut s, first) = session_with_tab();
    let second = s.split_focused(Split::Horizontal).unwrap();
    s.add_pane(second);
    let other = s.alloc_pane_id();
    s.open_tab(other);
    assert_eq!(s.find_tab_with_pane(first), Some(0));
    assert_eq!(s.find_tab_with_pane(other), Some(1));
    assert_eq!(s.find_tab_with_pane(1000), None);
    assert!(s.wakeup_needs_redraw(other));
    assert!(!s.wakeup_needs_redraw(first));
    assert!(s.title_applies(other));
    s.switch_tab(0);
    assert!(s.title_applies(second));
    assert!(!s.title_applies(first));
    s.focus_pane(first);
    assert!(s.title_applies(first));
}

#[test]
fn exited_pane_is_closed_where_it_runs() {
    let (mut s, first) = session_with_tab();
    let second = s.split_focused(Split::Horizontal).unwrap();
    s.add_pane(second);
    let other = s.alloc_pane_id();
    s.open_tab(other);
    assert_eq!(s.active_tab(), 1);
    assert!(s.pane_exited(555).is_none());
    match s.pane_exited(first) {
        Some(CloseOutcome::PaneClosed { pane, tab }) => {
            assert_eq!(pane, first);
            assert_eq!(tab, 0);
        }
        other => panic!("unexpected {:?}", other),
    }
    assert_eq!(s.active_tab(), 1);
    assert_eq!(s.tab(0).layout.leaves(), vec![second]);
    match s.pane_exited(other) {
        Some(CloseOutcome::TabClosed { pane, exit, .. }) => {
            assert_eq!(pane, other);
            assert!(!exit);
        }
        other => panic!("unexpected {:?}", other),
    }
    assert_eq!(s.tab_count(), 1);
    assert_eq!(s.active_tab(), 0);
}

#[test]
fn single_pane_tab_closes_whatever_the_focus() {
    let (mut s, first) = session_with_tab();
    s.focus_pane(77);
    match s.close_focused() {
        CloseOutcome::TabClosed { pane, dropped, exit } => {
            assert_eq!(pane, 77);
            assert_eq!(dropped, vec![first]);
            assert!(exit);
        }
        other => panic!("unexpected {:?}", other),
    }
}

#[test]
fn only_panes_of_the_tree_are_recorded_as_running() {
    let (mut s, first) = session_with_tab();
    s.add_pane(42);
    assert_eq!(s.tab(0).panes, vec![first]);
}
