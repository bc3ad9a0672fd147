//! Tabs and panes: each tab is an independent tiling tree of panes; one tab
//! is active. Pane ids are handed out from one counter and never reused.

use vstd::prelude::*;
use crate::layout::{
    Layout, Node, PaneId, Split, insert_after_first, without, lemma_insert_after_props,
    lemma_remove_leaves, lemma_without_subset, lemma_no_dup_after_without, lemma_split_leaves,
    lemma_without_absent, lemma_without_keeps,
};

verus! {

/// One tab: its tiling tree and the panes whose terminals are running.
pub struct Tab {
    pub layout: Layout,
    pub panes: Vec<PaneId>,
}

impl Tab {
    pub fn new(initial: PaneId) -> (t: Tab)
        ensures
            t.layout.tree() == Node::Leaf(initial),
            t.layout.focus() == initial,
            t.panes@ == seq![initial],
    {
        let panes = vec![initial];
        Tab { layout: Layout::new(initial), panes }
    }
}

/// What closing the focused pane did.
#[derive(Debug)]
pub enum CloseOutcome {
    /// There is no tab.
    NoTab,
    /// The pane was taken out of tab `tab`, which lives on.
    PaneClosed { pane: PaneId, tab: usize },
    /// The pane was the last of its tab and the tab was closed with it;
    /// `dropped` are the other running panes of that tab; `exit` tells that
    /// no tab is left.
    TabClosed { pane: PaneId, dropped: Vec<PaneId>, exit: bool },
}

/// No pane id occurs twice, within a tab or across tabs, and every pane id
/// is below the next id to hand out.
pub open spec fn pane_ids_unique(tabs: Seq<Tab>, next: PaneId) -> bool {
    &&& forall|i: int| 0 <= i < tabs.len() ==> (#[trigger] tabs[i]).layout.panes().no_duplicates()
    &&& forall|i: int, p: PaneId| 0 <= i < tabs.len() && #[trigger] tab_has(tabs, i, p) ==> p < next
    &&& forall|i: int, j: int, p: PaneId|
        0 <= i < tabs.len() && 0 <= j < tabs.len() && i != j && #[trigger] tab_has(tabs, i, p)
            ==> !#[trigger] tab_has(tabs, j, p)
}

/// Tab `i` holds pane `p` in its tiling tree.
pub open spec fn tab_has(tabs: Seq<Tab>, i: int, p: PaneId) -> bool {
    tabs[i].layout.panes().contains(p)
}

/// The running panes of a tab: none listed twice, each a pane of the tab's
/// tiling tree.
pub open spec fn tab_runs_ok(t: Tab) -> bool {
    &&& t.panes@.no_duplicates()
    &&& forall|p: PaneId| #[trigger] t.panes@.contains(p) ==> t.layout.panes().contains(p)
}

/// Every tab's running panes are in order.
pub open spec fn running_ok(tabs: Seq<Tab>) -> bool {
    forall|i: int| 0 <= i < tabs.len() ==> tab_runs_ok(#[trigger] tabs[i])
}

/// `pane` is in no tab and below the next id.
pub open spec fn fresh_in(tabs: Seq<Tab>, next: PaneId, pane: PaneId) -> bool {
    &&& pane < next
    &&& forall|i: int| 0 <= i < tabs.len() ==> !#[trigger] tab_has(tabs, i, pane)
}

/// The index of the first tab, from `from` on, that runs `pane`.
pub open spec fn first_tab_from(tabs: Seq<Tab>, pane: PaneId, from: int) -> Option<int>
    decreases tabs.len() - from,
{
    if from < 0 || from >= tabs.len() {
        None
    } else if tabs[from].panes@.contains(pane) {
        Some(from)
    } else {
        first_tab_from(tabs, pane, from + 1)
    }
}

/// The index of the first tab that runs `pane`.
pub open spec fn spec_find_tab(tabs: Seq<Tab>, pane: PaneId) -> Option<int> {
    first_tab_from(tabs, pane, 0)
}

/// The first tab that runs `pane` is one that does, and no earlier one does.
pub proof fn lemma_find_tab(tabs: Seq<Tab>, pane: PaneId, from: int)
    requires
        0 <= from,
    ensures
        first_tab_from(tabs, pane, from) matches Some(i) ==> from <= i < tabs.len()
            && tabs[i].panes@.contains(pane) && forall|j: int|
            from <= j < i ==> !(#[trigger] tabs[j]).panes@.contains(pane),
        first_tab_from(tabs, pane, from) is None ==> forall|j: int|
            from <= j < tabs.len() ==> !(#[trigger] tabs[j]).panes@.contains(pane),
    decreases tabs.len() - from,
{
    if from < tabs.len() {
        lemma_find_tab(tabs, pane, from + 1);
        if !tabs[from].panes@.contains(pane) {
            if let Some(i) = first_tab_from(tabs, pane, from) {
                assert forall|j: int| from <= j < i implies !(#[trigger] tabs[j]).panes@.contains(
                    pane,
                ) by {
                    if j > from {
                    }
                }
            }
        }
    }
}

pub struct Session {
    tabs: Vec<Tab>,
    active_tab: usize,
    next_pane_id: PaneId,
}

impl Session {
    #[verifier::type_invariant]
    spec fn inv(self) -> bool {
        &&& self.tabs@.len() > 0 ==> self.active_tab < self.tabs@.len()
        &&& pane_ids_unique(self.tabs@, self.next_pane_id)
        &&& running_ok(self.tabs@)
    }

    pub closed spec fn tabs(&self) -> Seq<Tab> {
        self.tabs@
    }

    pub closed spec fn active(&self) -> usize {
        self.active_tab
    }

    pub closed spec fn next_id(&self) -> PaneId {
        self.next_pane_id
    }

    /// The state invariant, as callers see it.
    pub open spec fn valid(&self) -> bool {
        &&& self.tabs().len() > 0 ==> self.active() < self.tabs().len()
        &&& pane_ids_unique(self.tabs(), self.next_id())
        &&& running_ok(self.tabs())
    }

    pub fn new() -> (s: Self)
        ensures
            s.tabs().len() == 0,
            s.active() == 0,
            s.next_id() == 1,
            s.valid(),
    {
        Session { tabs: Vec::new(), active_tab: 0, next_pane_id: 1 }
    }

    /// The number of tabs (every session is valid).
    pub fn tab_count(&self) -> (n: usize)
        ensures
            n == self.tabs().len(),
            self.valid(),
    {
        proof {
            use_type_invariant(self);
        }
        self.tabs.len()
    }

    pub fn active_tab(&self) -> (a: usize)
        ensures
            a == self.active(),
            self.tabs().len() > 0 ==> a < self.tabs().len(),
            self.valid(),
    {
        proof {
            use_type_invariant(self);
        }
        self.active_tab
    }

    pub fn next_pane_id(&self) -> (n: PaneId)
        ensures
            n == self.next_id(),
    {
        self.next_pane_id
    }

    pub fn tab(&self, i: usize) -> (t: &Tab)
        requires
            i < self.tabs().len(),
        ensures
            *t == self.tabs()[i as int],
            self.valid(),
    {
        proof {
            use_type_invariant(self);
        }
        &self.tabs[i]
    }

    /// The focused pane of the active tab.
    pub fn active_focused(&self) -> (p: Option<PaneId>)
        ensures
            p == (if self.tabs().len() > 0 {
                Some(self.tabs()[self.active() as int].layout.focus())
            } else {
                None::<PaneId>
            }),
    {
        proof {
            use_type_invariant(self);
        }
        if self.active_tab < self.tabs.len() {
            Some(self.tabs[self.active_tab].layout.focused())
        } else {
            None
        }
    }

    /// Hand out the next pane id.
    pub fn alloc_pane_id(&mut self) -> (id: PaneId)
        requires
            old(self).next_id() < PaneId::MAX,
        ensures
            id == old(self).next_id(),
            final(self).next_id() == old(self).next_id() + 1,
            final(self).tabs() == old(self).tabs(),
            final(self).active() == old(self).active(),
            fresh_in(final(self).tabs(), final(self).next_id(), id),
    {
        proof {
            use_type_invariant(&*self);
        }
        let id = self.next_pane_id;
        self.next_pane_id = id + 1;
        id
    }

    /// Whether `pane` may start a new tab: in no tab and already handed out.
    pub fn is_fresh(&self, pane: PaneId) -> (r: bool)
        ensures
            r == fresh_in(self.tabs(), self.next_id(), pane),
    {
        if pane >= self.next_pane_id {
            return false;
        }
        let mut i: usize = 0;
        while i < self.tabs.len()
            invariant
                i <= self.tabs@.len(),
                pane < self.next_pane_id,
                forall|k: int| 0 <= k < i ==> !#[trigger] tab_has(self.tabs@, k, pane),
            decreases self.tabs@.len() - i,
        {
            let leaves = self.tabs[i].layout.leaves();
            if contains_id(&leaves, pane) {
                assert(tab_has(self.tabs@, i as int, pane));
                return false;
            }
            i = i + 1;
        }
        true
    }

    /// Open a tab holding the single pane `pane` and make it active.
    pub fn open_tab(&mut self, pane: PaneId)
        requires
            fresh_in(old(self).tabs(), old(self).next_id(), pane),
        ensures
            final(self).tabs().len() == old(self).tabs().len() + 1,
            final(self).tabs().subrange(0, old(self).tabs().len() as int) == old(self).tabs(),
            final(self).tabs().last().layout.tree() == Node::Leaf(pane),
            final(self).tabs().last().layout.focus() == pane,
            final(self).tabs().last().panes@ == seq![pane],
            final(self).active() == old(self).tabs().len(),
            final(self).next_id() == old(self).next_id(),
    {
        self.push_tab(pane);
        proof {
            use_type_invariant(&*self);
        }
        self.active_tab = self.tabs.len() - 1;
    }

    /// Open the first tab (holding the single pane `pane`) and make the
    /// first tab active.
    pub fn open_first_tab(&mut self, pane: PaneId)
        requires
            fresh_in(old(self).tabs(), old(self).next_id(), pane),
        ensures
            final(self).tabs().len() == old(self).tabs().len() + 1,
            final(self).tabs().subrange(0, old(self).tabs().len() as int) == old(self).tabs(),
            final(self).tabs().last().layout.tree() == Node::Leaf(pane),
            final(self).tabs().last().layout.focus() == pane,
            final(self).tabs().last().panes@ == seq![pane],
            final(self).active() == 0,
            final(self).next_id() == old(self).next_id(),
    {
        self.push_tab(pane);
        proof {
            use_type_invariant(&*self);
        }
        self.active_tab = 0;
    }

    fn push_tab(&mut self, pane: PaneId)
        requires
            fresh_in(old(self).tabs(), old(self).next_id(), pane),
        ensures
            final(self).tabs() == old(self).tabs().push(final(self).tabs().last()),
            final(self).tabs().last().layout.tree() == Node::Leaf(pane),
            final(self).tabs().last().layout.focus() == pane,
            final(self).tabs().last().panes@ == seq![pane],
            final(self).next_id() == old(self).next_id(),
            final(self).active() < final(self).tabs().len() || old(self).tabs().len() == 0,
            final(self).active() == old(self).active() || old(self).tabs().len() == 0,
    {
        proof {
            use_type_invariant(&*self);
        }
        let mut tabs: Vec<Tab> = Vec::new();
        std::mem::swap(&mut tabs, &mut self.tabs);
        let was_empty = tabs.len() == 0;
        let t = Tab::new(pane);
        let ghost before = tabs@;
        tabs.push(t);
        proof {
            let tl = tabs@;
            assert(tl[tl.len() - 1].layout.panes() =~= seq![pane]);
            assert forall|i: int| 0 <= i < tl.len() implies (#[trigger] tl[i]).layout.panes().no_duplicates() by {
                if i < before.len() {
                    assert(tl[i] == before[i]);
                }
            }
            assert forall|i: int, p: PaneId|
                0 <= i < tl.len() && #[trigger] tab_has(tl, i, p) implies p < self.next_pane_id by {
                if i < before.len() {
                    assert(tl[i] == before[i]);
                    assert(tab_has(before, i, p));
                } else {
                    let k = choose|k: int| 0 <= k < tl[i].layout.panes().len() && tl[i].layout.panes()[k] == p;
                    assert(k == 0);
                }
            }
            assert forall|i: int, j: int, p: PaneId|
                0 <= i < tl.len() && 0 <= j < tl.len() && i != j && #[trigger] tab_has(tl, i, p)
                    implies !#[trigger] tab_has(tl, j, p) by {
                if i < before.len() && j < before.len() {
                    assert(tl[i] == before[i] && tl[j] == before[j]);
                    assert(tab_has(before, i, p));
                    assert(!tab_has(before, j, p));
                } else if i < before.len() {
                    assert(tl[i] == before[i]);
                    assert(tab_has(before, i, p));
                    assert(!tab_has(before, i, pane));
                    if tl[j].layout.panes().contains(p) {
                        let k = choose|k: int| 0 <= k < tl[j].layout.panes().len() && tl[j].layout.panes()[k] == p;
                        assert(k == 0);
                    }
                } else {
                    assert(tl[j] == before[j]);
                    assert(!tab_has(before, j, pane));
                    let k = choose|k: int| 0 <= k < tl[i].layout.panes().len() && tl[i].layout.panes()[k] == p;
                    assert(k == 0);
                }
            }
        }
        if was_empty {
            self.active_tab = 0;
        }
        self.tabs = tabs;
    }

    /// Split the focused pane of the active tab, giving the new half a
    /// freshly handed-out pane id, which is returned (none without a tab).
    pub fn split_focused(&mut self, split: Split) -> (id: Option<PaneId>)
        requires
            old(self).next_id() < PaneId::MAX,
        ensures
            old(self).tabs().len() == 0 ==> id is None && *final(self) == *old(self),
            old(self).tabs().len() > 0 ==> {
                let a = old(self).active() as int;
                let t = old(self).tabs()[a];
                &&& id == Some(old(self).next_id())
                &&& final(self).next_id() == old(self).next_id() + 1
                &&& final(self).active() == old(self).active()
                &&& final(self).tabs().len() == old(self).tabs().len()
                &&& forall|j: int| 0 <= j < old(self).tabs().len() && j != a ==> #[trigger] final(self).tabs()[j] == old(self).tabs()[j]
                &&& final(self).tabs()[a].panes == t.panes
                &&& final(self).tabs()[a].layout.tree() == t.layout.tree().split_spec(t.layout.focus(), old(self).next_id(), split).0
                &&& final(self).tabs()[a].layout.focus() == old(self).next_id()
                &&& final(self).tabs()[a].layout.panes() == insert_after_first(t.layout.panes(), t.layout.focus(), old(self).next_id())
            },
    {
        proof {
            use_type_invariant(&*self);
        }
        if self.tabs.len() == 0 {
            return None;
        }
        let a = self.active_tab;
        let new_id = self.next_pane_id;
        let mut tabs: Vec<Tab> = Vec::new();
        std::mem::swap(&mut tabs, &mut self.tabs);
        let ghost before = tabs@;
        self.next_pane_id = new_id + 1;
        tabs[a].layout.split_focused(new_id, split);
        proof {
            let tl = tabs@;
            let old_leaves = before[a as int].layout.panes();
            assert(!old_leaves.contains(new_id)) by {
                if old_leaves.contains(new_id) {
                    assert(tab_has(before, a as int, new_id));
                }
            }
            lemma_insert_after_props(old_leaves, before[a as int].layout.focus(), new_id);
            assert(tab_runs_ok(before[a as int]));
            assert(tab_runs_ok(tabs@[a as int])) by {
                assert forall|p: PaneId| #[trigger] tabs@[a as int].panes@.contains(p) implies tabs@[a as int].layout.panes().contains(p) by {
                    assert(old_leaves.contains(p));
                    lemma_without_subset(tabs@[a as int].layout.panes(), new_id, p);
                }
            }
            lemma_running_update(before, tabs@, a as int);
            assert forall|j: int| 0 <= j < tl.len() && j != a implies tl[j] == before[j] by {}
            assert forall|i: int| 0 <= i < tl.len() implies (#[trigger] tl[i]).layout.panes().no_duplicates() by {
                if i != a {
                    assert(tl[i] == before[i]);
                }
            }
            assert forall|i: int, p: PaneId|
                0 <= i < tl.len() && #[trigger] tab_has(tl, i, p) implies p < new_id + 1 by {
                if i != a {
                    assert(tl[i] == before[i]);
                    assert(tab_has(before, i, p));
                } else {
                    if p != new_id {
                        assert(old_leaves.contains(p));
                        assert(tab_has(before, a as int, p));
                    }
                }
            }
            assert forall|i: int, j: int, p: PaneId|
                0 <= i < tl.len() && 0 <= j < tl.len() && i != j && #[trigger] tab_has(tl, i, p)
                    implies !#[trigger] tab_has(tl, j, p) by {
                if i != a && j != a {
                    assert(tl[i] == before[i] && tl[j] == before[j]);
                    assert(tab_has(before, i, p));
                    assert(!tab_has(before, j, p));
                } else if i == a {
                    assert(tl[j] == before[j]);
                    if p == new_id {
                        if tab_has(before, j, p) {
                            assert(p < new_id);
                        }
                    } else {
                        assert(old_leaves.contains(p));
                        assert(tab_has(before, a as int, p));
                        assert(!tab_has(before, j, p));
                    }
                } else {
                    assert(tl[i] == before[i]);
                    assert(tab_has(before, i, p));
                    assert(p < new_id);
                    if tl[j].layout.panes().contains(p) {
                        assert(old_leaves.contains(p));
                        assert(tab_has(before, a as int, p));
                    }
                }
            }
        }
        self.tabs = tabs;
        Some(new_id)
    }

    /// Record that the terminal of `pane` runs in the active tab.
    pub fn add_pane(&mut self, pane: PaneId)
        ensures
            final(self).next_id() == old(self).next_id(),
            final(self).active() == old(self).active(),
            final(self).tabs().len() == old(self).tabs().len(),
            forall|j: int| 0 <= j < old(self).tabs().len() && j != old(self).active() ==> #[trigger] final(self).tabs()[j] == old(self).tabs()[j],
            old(self).tabs().len() > 0 ==> {
                let a = old(self).active() as int;
                &&& final(self).tabs()[a].layout == old(self).tabs()[a].layout
                &&& final(self).tabs()[a].panes@ == if old(self).tabs()[a].panes@.contains(pane)
                    || !old(self).tabs()[a].layout.panes().contains(pane) {
                    old(self).tabs()[a].panes@
                } else {
                    old(self).tabs()[a].panes@.push(pane)
                }
            },
    {
        proof {
            use_type_invariant(&*self);
        }
        if self.tabs.len() == 0 {
            return;
        }
        let a = self.active_tab;
        let mut tabs: Vec<Tab> = Vec::new();
        std::mem::swap(&mut tabs, &mut self.tabs);
        let ghost before = tabs@;
        let leaves = tabs[a].layout.leaves();
        if !contains_id(&tabs[a].panes, pane) && contains_id(&leaves, pane) {
            tabs[a].panes.push(pane);
        }
        proof {
            let tl = tabs@;
            let t0 = before[a as int];
            assert(tab_runs_ok(t0));
            assert(tab_runs_ok(tl[a as int])) by {
                let ps = tl[a as int].panes@;
                if ps != t0.panes@ {
                    assert(ps == t0.panes@.push(pane));
                    assert forall|x: int, y: int| 0 <= x < ps.len() && 0 <= y < ps.len() && x != y
                        implies ps[x] != ps[y] by {
                        if x < t0.panes@.len() && y < t0.panes@.len() {
                        } else if x < t0.panes@.len() {
                            assert(t0.panes@.contains(ps[x]));
                        } else {
                            assert(t0.panes@.contains(ps[y]));
                        }
                    }
                    assert forall|p: PaneId| #[trigger] ps.contains(p) implies tl[a as int].layout.panes().contains(p) by {
                        if p != pane {
                            let k = choose|k: int| 0 <= k < ps.len() && ps[k] == p;
                            assert(t0.panes@[k] == p);
                            assert(t0.panes@.contains(p));
                        }
                    }
                }
            }
            lemma_running_update(before, tl, a as int);
            assert forall|i: int| 0 <= i < tl.len() implies tl[i].layout == before[i].layout by {
                if i != a {
                    assert(tl[i] == before[i]);
                }
            }
            lemma_unique_same_panes(before, tl, self.next_pane_id);
        }
        self.tabs = tabs;
    }

    /// Focus `pane` in the active tab.
    pub fn focus_pane(&mut self, pane: PaneId)
        ensures
            final(self).next_id() == old(self).next_id(),
            final(self).active() == old(self).active(),
            final(self).tabs().len() == old(self).tabs().len(),
            forall|j: int| 0 <= j < old(self).tabs().len() && j != old(self).active() ==> #[trigger] final(self).tabs()[j] == old(self).tabs()[j],
            old(self).tabs().len() > 0 ==> {
                let a = old(self).active() as int;
                &&& final(self).tabs()[a].panes == old(self).tabs()[a].panes
                &&& final(self).tabs()[a].layout.tree() == old(self).tabs()[a].layout.tree()
                &&& final(self).tabs()[a].layout.focus() == pane
            },
    {
        proof {
            use_type_invariant(&*self);
        }
        if self.tabs.len() == 0 {
            return;
        }
        let a = self.active_tab;
        self.focus_in(a, pane);
    }

    fn focus_in(&mut self, a: usize, pane: PaneId)
        requires
            a < old(self).tabs().len(),
        ensures
            final(self).next_id() == old(self).next_id(),
            final(self).active() == old(self).active(),
            final(self).tabs().len() == old(self).tabs().len(),
            forall|j: int| 0 <= j < old(self).tabs().len() && j != a ==> #[trigger] final(self).tabs()[j] == old(self).tabs()[j],
            final(self).tabs()[a as int].panes == old(self).tabs()[a as int].panes,
            final(self).tabs()[a as int].layout.tree() == old(self).tabs()[a as int].layout.tree(),
            final(self).tabs()[a as int].layout.focus() == pane,
    {
        proof {
            use_type_invariant(&*self);
        }
        let mut tabs: Vec<Tab> = Vec::new();
        std::mem::swap(&mut tabs, &mut self.tabs);
        let ghost before = tabs@;
        tabs[a].layout.set_focused(pane);
        proof {
            let tl = tabs@;
            assert forall|i: int| 0 <= i < tl.len() implies tl[i].layout.panes() == before[i].layout.panes() by {
                if i != a {
                    assert(tl[i] == before[i]);
                }
            }
            lemma_unique_same_panes(before, tl, self.next_pane_id);
        }
        self.tabs = tabs;
    }

    /// Make tab `idx` active; tells whether anything changed.
    pub fn switch_tab(&mut self, idx: usize) -> (changed: bool)
        ensures
            changed == (idx < old(self).tabs().len() && idx != old(self).active()),
            final(self).active() == if changed {
                idx
            } else {
                old(self).active()
            },
            final(self).tabs() == old(self).tabs(),
            final(self).next_id() == old(self).next_id(),
    {
        proof {
            use_type_invariant(&*self);
        }
        if idx < self.tabs.len() && idx != self.active_tab {
            self.active_tab = idx;
            true
        } else {
            false
        }
    }

    /// Make the next (or previous) tab active, wrapping around; nothing
    /// changes with fewer than two tabs.
    pub fn cycle_tab(&mut self, forward: bool) -> (changed: bool)
        ensures
            changed == (old(self).tabs().len() >= 2),
            final(self).active() == if !changed {
                old(self).active()
            } else {
                cycled(old(self).active() as int, old(self).tabs().len() as int, forward) as usize
            },
            final(self).tabs() == old(self).tabs(),
            final(self).next_id() == old(self).next_id(),
    {
        proof {
            use_type_invariant(&*self);
        }
        if self.tabs.len() < 2 {
            return false;
        }
        let n = self.tabs.len();
        let a = self.active_tab;
        let next = if forward {
            (a + 1) % n
        } else if a == 0 {
            n - 1
        } else {
            a - 1
        };
        assert(!forward ==> next == (a + n - 1) % (n as int)) by {
            if !forward {
                if a == 0 {
                    vstd::arithmetic::div_mod::lemma_small_mod((n - 1) as nat, n as nat);
                } else {
                    assert((a + n - 1) == (a - 1) + n);
                    assert(((a - 1) + n) % (n as int) == a - 1) by {
                        vstd::arithmetic::div_mod::lemma_mod_add_multiples_vanish((a - 1) as int, n as int);
                        vstd::arithmetic::div_mod::lemma_small_mod((a - 1) as nat, n as nat);
                    }
                }
            }
        }
        self.active_tab = next;
        true
    }

    /// Close the focused pane of the active tab. When it is the tab's last
    /// pane the tab is closed with it, and the tab after it (or, for the last
    /// tab, the one before it) becomes active.
    pub fn close_focused(&mut self) -> (out: CloseOutcome)
        ensures
            final(self).next_id() == old(self).next_id(),
            old(self).tabs().len() == 0 ==> out is NoTab && *final(self) == *old(self),
            old(self).tabs().len() > 0 ==> closes_focused_pane(*old(self), *final(self), out),
    {
        proof {
            use_type_invariant(&*self);
        }
        if self.tabs.len() == 0 {
            return CloseOutcome::NoTab;
        }
        let a = self.active_tab;
        self.close_in(a)
    }

    /// Close the focused pane of tab `a` (the active tab for the caller).
    fn close_in(&mut self, a: usize) -> (out: CloseOutcome)
        requires
            a < old(self).tabs().len(),
            a == old(self).active(),
        ensures
            final(self).next_id() == old(self).next_id(),
            closes_focused_pane(*old(self), *final(self), out),
    {
        proof {
            use_type_invariant(&*self);
        }
        let mut tabs: Vec<Tab> = Vec::new();
        std::mem::swap(&mut tabs, &mut self.tabs);
        let ghost before = tabs@;
        let focused = tabs[a].layout.focused();
        let closed = tabs[a].layout.close_focused();
        let rest = without_id(&tabs[a].panes, focused);
        if !closed {
            assert(tabs@ =~= before) by {
                assert(tabs@[a as int] == before[a as int]);
            }
            let _gone = tabs.remove(a);
            proof {
                lemma_unique_remove(before, a as int, self.next_pane_id);
            }
            let exit = tabs.len() == 0;
            if !exit && self.active_tab >= tabs.len() {
                self.active_tab = tabs.len() - 1;
            }
            self.tabs = tabs;
            CloseOutcome::TabClosed { pane: focused, dropped: rest, exit }
        } else {
            tabs[a].panes = rest;
            proof {
                let tl = tabs@;
                let old_tree = before[a as int].layout.tree();
                lemma_remove_leaves(old_tree, focused);
                assert forall|i: int| 0 <= i < tl.len() implies #[trigger] tl[i].layout.panes().no_duplicates() by {
                    if i != a {
                        assert(tl[i] == before[i]);
                    }
                }
                assert forall|i: int, p: PaneId| 0 <= i < tl.len() && #[trigger] tab_has(tl, i, p) implies tab_has(before, i, p) by {
                    if i != a {
                        assert(tl[i] == before[i]);
                    } else if old_tree.remove_spec(focused).1 {
                        lemma_without_subset(before[a as int].layout.panes(), focused, p);
                    }
                }
                lemma_unique_subsets(before, tl, self.next_pane_id);
                let t0 = before[a as int];
                assert(tab_runs_ok(t0));
                lemma_no_dup_after_without(t0.panes@, focused);
                assert(tab_runs_ok(tl[a as int])) by {
                    assert forall|p: PaneId| #[trigger] tl[a as int].panes@.contains(p) implies tl[a as int].layout.panes().contains(p) by {
                        lemma_without_subset(t0.panes@, focused, p);
                        lemma_without_ne(t0.panes@, focused, p);
                        assert(t0.layout.panes().contains(p));
                        if old_tree.remove_spec(focused).1 {
                            lemma_without_keeps(t0.layout.panes(), focused, p);
                        }
                    }
                }
                lemma_running_update(before, tl, a as int);
            }
            self.tabs = tabs;
            CloseOutcome::PaneClosed { pane: focused, tab: a }
        }
    }

    /// The terminal of `pane` ended: close that pane in whichever tab runs
    /// it, as if it were focused there, and keep the active tab (or the last
    /// tab, when the active one no longer exists). Nothing happens when no
    /// tab runs `pane`.
    pub fn pane_exited(&mut self, pane: PaneId) -> (out: Option<CloseOutcome>)
        ensures
            final(self).next_id() == old(self).next_id(),
            out is None <==> spec_find_tab(old(self).tabs(), pane) is None,
            out is None ==> *final(self) == *old(self),
            out matches Some(o) ==> {
                let i = spec_find_tab(old(self).tabs(), pane)->Some_0;
                let t = old(self).tabs()[i];
                let n = final(self).tabs().len();
                &&& if t.layout.tree() is Leaf {
                    &&& final(self).tabs() == old(self).tabs().remove(i)
                    &&& o == CloseOutcome::TabClosed { pane, dropped: o->TabClosed_dropped, exit: n == 0 }
                    &&& o->TabClosed_dropped@ == without(t.panes@, pane)
                } else {
                    &&& n == old(self).tabs().len()
                    &&& o == CloseOutcome::PaneClosed { pane, tab: i as usize }
                    &&& forall|j: int| 0 <= j < n && j != i ==> #[trigger] final(self).tabs()[j] == old(self).tabs()[j]
                    &&& final(self).tabs()[i].layout.tree() == t.layout.tree().remove_spec(pane).0
                    &&& final(self).tabs()[i].layout.focus() == final(self).tabs()[i].layout.tree().leftmost()
                    &&& final(self).tabs()[i].panes@ == without(t.panes@, pane)
                }
                &&& n > 0 ==> final(self).active() == if old(self).active() < n {
                    old(self).active()
                } else {
                    (n - 1) as usize
                }
            },
    {
        proof {
            use_type_invariant(&*self);
        }
        let idx = match self.find_tab_with_pane(pane) {
            Some(i) => i,
            None => {
                return None;
            },
        };
        let ghost old_tabs = self.tabs@;
        let saved = self.active_tab;
        self.active_tab = idx;
        self.focus_in(idx, pane);
        let ghost mid_tabs = self.tabs@;
        let out = self.close_in(idx);
        proof {
            use_type_invariant(&*self);
            let i = idx as int;
            if old_tabs[i].layout.tree() is Leaf {
                assert(self.tabs@ =~= old_tabs.remove(i)) by {
                    assert forall|j: int| 0 <= j < self.tabs@.len() implies self.tabs@[j] == old_tabs.remove(i)[j] by {
                        if j < i {
                            assert(mid_tabs[j] == old_tabs[j]);
                        } else {
                            assert(mid_tabs[j + 1] == old_tabs[j + 1]);
                        }
                    }
                }
            }
        }
        if self.tabs.len() > 0 {
            let last = self.tabs.len() - 1;
            self.active_tab = if saved < last {
                saved
            } else {
                last
            };
        }
        Some(out)
    }

    /// A wake-up from the terminal of `pane` needs a redraw: the pane runs
    /// in the active tab.
    pub fn wakeup_needs_redraw(&self, pane: PaneId) -> (r: bool)
        ensures
            r == (spec_find_tab(self.tabs(), pane) == Some(self.active() as int)),
    {
        match self.find_tab_with_pane(pane) {
            Some(i) => i == self.active_tab,
            None => false,
        }
    }

    /// A title set by the terminal of `pane` becomes the window title: the
    /// pane runs in the active tab and is focused there.
    pub fn title_applies(&self, pane: PaneId) -> (r: bool)
        ensures
            r == (spec_find_tab(self.tabs(), pane) == Some(self.active() as int)
                && self.tabs()[self.active() as int].layout.focus() == pane),
    {
        proof {
            use_type_invariant(self);
        }
        match self.find_tab_with_pane(pane) {
            Some(i) => i == self.active_tab && self.tabs[i].layout.focused() == pane,
            None => false,
        }
    }

    /// The first tab that runs `pane`.
    pub fn find_tab_with_pane(&self, pane: PaneId) -> (r: Option<usize>)
        ensures
            r is Some <==> spec_find_tab(self.tabs(), pane) is Some,
            r matches Some(i) ==> spec_find_tab(self.tabs(), pane) == Some(i as int),
            r matches Some(i) ==> i < self.tabs().len() && self.tabs()[i as int].panes@.contains(
                pane,
            ),
    {
        let mut i: usize = 0;
        while i < self.tabs.len()
            invariant
                i <= self.tabs@.len(),
                first_tab_from(self.tabs@, pane, 0) == first_tab_from(self.tabs@, pane, i as int),
            decreases self.tabs@.len() - i,
        {
            if contains_id(&self.tabs[i].panes, pane) {
                proof {
                    lemma_find_tab(self.tabs@, pane, 0);
                }
                return Some(i);
            }
            i = i + 1;
        }
        None
    }
}

/// `v` holds `x`.
pub fn contains_id(v: &Vec<PaneId>, x: PaneId) -> (r: bool)
    ensures
        r == v@.contains(x),
{
    let mut i: usize = 0;
    while i < v.len()
        invariant
            i <= v@.len(),
            forall|k: int| 0 <= k < i ==> v@[k] != x,
        decreases v@.len() - i,
    {
        if v[i] == x {
            assert(v@[i as int] == x);
            return true;
        }
        i = i + 1;
    }
    false
}

/// Two sequences of tabs whose tiling trees hold the same panes agree on
/// pane uniqueness.
proof fn lemma_unique_same_panes(a: Seq<Tab>, b: Seq<Tab>, next: PaneId)
    requires
        a.len() == b.len(),
        forall|i: int| 0 <= i < a.len() ==> a[i].layout.panes() == b[i].layout.panes(),
        pane_ids_unique(a, next),
    ensures
        pane_ids_unique(b, next),
{
    assert forall|i: int| 0 <= i < b.len() implies (#[trigger] b[i]).layout.panes().no_duplicates() by {
        assert(a[i].layout.panes().no_duplicates());
    }
    assert forall|i: int, p: PaneId| 0 <= i < b.len() && #[trigger] tab_has(b, i, p) implies p < next by {
        assert(tab_has(a, i, p));
    }
    assert forall|i: int, j: int, p: PaneId|
        0 <= i < b.len() && 0 <= j < b.len() && i != j && #[trigger] tab_has(b, i, p) implies !#[trigger] tab_has(b, j, p) by {
        assert(tab_has(a, i, p));
        assert(!tab_has(a, j, p));
    }
}

/// What closing the focused pane of the active tab does to a session.
pub open spec fn closes_focused_pane(before: Session, after: Session, out: CloseOutcome) -> bool {
    let a = before.active() as int;
    let t = before.tabs()[a];
    let f = t.layout.focus();
    let n = after.tabs().len();
    if t.layout.tree() is Leaf {
        &&& after.tabs() == before.tabs().remove(a)
        &&& out == CloseOutcome::TabClosed { pane: f, dropped: out->TabClosed_dropped, exit: n == 0 }
        &&& out->TabClosed_dropped@ == without(t.panes@, f)
        &&& n > 0 ==> after.active() == if before.active() < n {
            before.active()
        } else {
            (n - 1) as usize
        }
    } else {
        &&& n == before.tabs().len()
        &&& after.active() == before.active()
        &&& out == CloseOutcome::PaneClosed { pane: f, tab: before.active() }
        &&& forall|j: int| 0 <= j < n && j != a ==> #[trigger] after.tabs()[j] == before.tabs()[j]
        &&& after.tabs()[a].layout.tree() == t.layout.tree().remove_spec(f).0
        &&& after.tabs()[a].layout.focus() == after.tabs()[a].layout.tree().leftmost()
        &&& after.tabs()[a].panes@ == without(t.panes@, f)
    }
}

/// `v` without `x`.
pub fn without_id(v: &Vec<PaneId>, x: PaneId) -> (out: Vec<PaneId>)
    ensures
        out@ == without(v@, x),
{
    let mut out: Vec<PaneId> = Vec::new();
    let mut i: usize = v.len();
    let mut acc: Vec<PaneId> = Vec::new();
    // build from the back so the recursion of `without` (from the front)
    // lines up with the suffix already processed
    while i > 0
        invariant
            i <= v@.len(),
            acc@ == without(v@.subrange(i as int, v@.len() as int), x).reverse(),
        decreases i,
    {
        i = i - 1;
        let ghost suffix = v@.subrange(i as int, v@.len() as int);
        assert(suffix.drop_first() =~= v@.subrange(i + 1, v@.len() as int));
        assert(suffix[0] == v@[i as int]);
        if v[i] != x {
            acc.push(v[i]);
            assert((seq![v@[i as int]] + without(suffix.drop_first(), x)).reverse() =~= without(
                suffix.drop_first(),
                x,
            ).reverse().push(v@[i as int]));
        }
    }
    assert(v@.subrange(0, v@.len() as int) =~= v@);
    let mut j: usize = acc.len();
    while j > 0
        invariant
            j <= acc@.len(),
            out@ == acc@.subrange(j as int, acc@.len() as int).reverse(),
        decreases j,
    {
        j = j - 1;
        out.push(acc[j]);
        assert(acc@.subrange(j as int, acc@.len() as int).reverse() =~= acc@.subrange(
            j + 1,
            acc@.len() as int,
        ).reverse().push(acc@[j as int]));
    }
    assert(acc@.subrange(0, acc@.len() as int) =~= acc@);
    assert(acc@.reverse().reverse() =~= acc@.reverse().reverse());
    proof {
        let w = without(v@, x);
        assert(acc@ == w.reverse());
        assert(acc@.reverse() =~= w);
    }
    out
}

/// Tabs whose tiling trees only lost panes keep unique pane ids.
proof fn lemma_unique_subsets(a: Seq<Tab>, b: Seq<Tab>, next: PaneId)
    requires
        a.len() == b.len(),
        pane_ids_unique(a, next),
        forall|i: int| 0 <= i < b.len() ==> #[trigger] b[i].layout.panes().no_duplicates(),
        forall|i: int, p: PaneId| 0 <= i < b.len() && #[trigger] tab_has(b, i, p) ==> tab_has(a, i, p),
    ensures
        pane_ids_unique(b, next),
{
    assert forall|i: int, p: PaneId| 0 <= i < b.len() && #[trigger] tab_has(b, i, p) implies p < next by {
        assert(tab_has(a, i, p));
    }
    assert forall|i: int, j: int, p: PaneId|
        0 <= i < b.len() && 0 <= j < b.len() && i != j && #[trigger] tab_has(b, i, p) implies !#[trigger] tab_has(b, j, p) by {
        assert(tab_has(a, i, p));
        if tab_has(b, j, p) {
            assert(tab_has(a, j, p));
        }
    }
}

/// Removing a tab keeps pane ids unique.
proof fn lemma_unique_remove(a: Seq<Tab>, k: int, next: PaneId)
    requires
        0 <= k < a.len(),
        pane_ids_unique(a, next),
    ensures
        pane_ids_unique(a.remove(k), next),
{
    let b = a.remove(k);
    assert forall|i: int| 0 <= i < b.len() implies (#[trigger] b[i]).layout.panes().no_duplicates() by {
        if i < k {
            assert(b[i] == a[i]);
        } else {
            assert(b[i] == a[i + 1]);
        }
    }
    assert forall|i: int, p: PaneId| 0 <= i < b.len() && #[trigger] tab_has(b, i, p) implies p < next by {
        if i < k {
            assert(tab_has(a, i, p));
        } else {
            assert(tab_has(a, i + 1, p));
        }
    }
    assert forall|i: int, j: int, p: PaneId|
        0 <= i < b.len() && 0 <= j < b.len() && i != j && #[trigger] tab_has(b, i, p) implies !#[trigger] tab_has(b, j, p) by {
        let ii = if i < k { i } else { i + 1 };
        let jj = if j < k { j } else { j + 1 };
        assert(tab_has(a, ii, p));
        assert(!tab_has(a, jj, p));
    }
}

/// What is left after taking `t` out is not `t`.
proof fn lemma_without_ne(s: Seq<PaneId>, t: PaneId, x: PaneId)
    ensures
        without(s, t).contains(x) ==> x != t,
    decreases s.len(),
{
    if s.len() > 0 {
        lemma_without_ne(s.drop_first(), t, x);
        if s[0] != t {
            let w = without(s, t);
            if w.contains(x) {
                let k = choose|k: int| 0 <= k < w.len() && w[k] == x;
                if k > 0 {
                    assert(without(s.drop_first(), t)[k - 1] == x);
                }
            }
        }
    }
}

/// Replacing one tab by a tab whose running panes are in order keeps every
/// tab's running panes in order.
proof fn lemma_running_update(a: Seq<Tab>, b: Seq<Tab>, k: int)
    requires
        a.len() == b.len(),
        0 <= k < b.len(),
        running_ok(a),
        forall|i: int| 0 <= i < b.len() && i != k ==> b[i] == a[i],
        tab_runs_ok(b[k]),
    ensures
        running_ok(b),
{
    assert forall|i: int| 0 <= i < b.len() implies tab_runs_ok(#[trigger] b[i]) by {
        if i != k {
            assert(b[i] == a[i]);
        }
    }
}

/// Removing a tab keeps every tab's running panes in order.
proof fn lemma_running_remove(a: Seq<Tab>, k: int)
    requires
        0 <= k < a.len(),
        running_ok(a),
    ensures
        running_ok(a.remove(k)),
{
    let b = a.remove(k);
    assert forall|i: int| 0 <= i < b.len() implies tab_runs_ok(#[trigger] b[i]) by {
        if i < k {
            assert(b[i] == a[i]);
        } else {
            assert(b[i] == a[i + 1]);
        }
    }
}

/// A pane runs in at most one tab: running panes are panes of their tab's
/// tiling tree, and no pane is in two tabs.
pub proof fn law_running_pane_in_one_tab(s: Session, i: int, j: int, p: PaneId)
    requires
        s.valid(),
        0 <= i < s.tabs().len(),
        0 <= j < s.tabs().len(),
        i != j,
        s.tabs()[i].panes@.contains(p),
    ensures
        !s.tabs()[j].panes@.contains(p),
        s.tabs()[i].layout.panes().contains(p),
{
    assert(tab_runs_ok(s.tabs()[i]));
    assert(tab_has(s.tabs(), i, p));
    if s.tabs()[j].panes@.contains(p) {
        assert(tab_runs_ok(s.tabs()[j]));
        assert(tab_has(s.tabs(), j, p));
    }
}

/// Closing the last pane of the active tab closes the tab and makes the tab
/// that followed it active, or, when it was the last tab, the one before it.
pub proof fn law_closing_a_tab_activates_its_neighbour(before: Session, after: Session, out: CloseOutcome)
    requires
        before.valid(),
        before.tabs().len() > 0,
        before.tabs()[before.active() as int].layout.tree() is Leaf,
        closes_focused_pane(before, after, out),
    ensures
        out is TabClosed,
        after.tabs().len() == before.tabs().len() - 1,
        after.tabs().len() > 0 ==> {
            let a = before.active() as int;
            after.tabs()[after.active() as int] == if a + 1 < before.tabs().len() {
                before.tabs()[a + 1]
            } else {
                before.tabs()[a - 1]
            }
        },
{
}

/// The tab after (or, backwards, before) tab `active` of `n`, wrapping
/// around.
pub open spec fn cycled(active: int, n: int, forward: bool) -> int {
    if forward {
        (active + 1) % n
    } else {
        (active + n - 1) % n
    }
}

/// Cycling stays among the tabs, always moves to another tab, and cycling
/// forward and then back (or back and then forward) returns to the tab one
/// started from; forward goes to the next tab, and from the last to the first.
pub proof fn law_cycle_laws(active: int, n: int, forward: bool)
    requires
        n >= 2,
        0 <= active < n,
    ensures
        0 <= cycled(active, n, forward) < n,
        cycled(active, n, forward) != active,
        cycled(cycled(active, n, forward), n, !forward) == active,
        forward ==> (cycled(active, n, true) == active + 1 || (active == n - 1 && cycled(active, n, true) == 0)),
{
    law_cycle_round_trip(active, n);
    if forward {
        if active + 1 < n {
            assert((active + 1) % n == active + 1) by (nonlinear_arith)
                requires 0 <= active + 1 < n;
        } else {
            assert((active + 1) % n == 0) by (nonlinear_arith)
                requires active + 1 == n, n >= 2;
        }
    } else {
        if active >= 1 {
            assert((active + n - 1) % n == active - 1) by (nonlinear_arith)
                requires 0 <= active - 1 < n, n >= 2;
        } else {
            assert((active + n - 1) % n == n - 1) by (nonlinear_arith)
                requires active == 0, n >= 2;
        }
    }
}

/// Cycling forward and then back (or back and then forward) returns to the
/// tab one started from.
pub proof fn law_cycle_round_trip(active: int, n: int)
    requires
        n >= 2,
        0 <= active < n,
    ensures
        ((active + 1) % n + n - 1) % n == active,
        ((active + n - 1) % n + 1) % n == active,
{
    assert(((active + 1) % n + n - 1) % n == active) by (nonlinear_arith)
        requires
            n >= 2,
            0 <= active < n,
    {
        if active + 1 < n {
            assert((active + 1) % n == active + 1) by (nonlinear_arith)
                requires
                    0 <= active + 1 < n,
            ;
        } else {
            assert((active + 1) % n == 0) by (nonlinear_arith)
                requires
                    active + 1 == n,
                    n >= 2,
            ;
        }
    }
    assert(((active + n - 1) % n + 1) % n == active) by (nonlinear_arith)
        requires
            n >= 2,
            0 <= active < n,
    {
        if active >= 1 {
            assert((active + n - 1) % n == active - 1) by (nonlinear_arith)
                requires
                    1 <= active < n,
            ;
        } else {
            assert((active + n - 1) % n == n - 1) by (nonlinear_arith)
                requires
                    active == 0,
                    n >= 2,
            ;
        }
    }
}

} // verus!
