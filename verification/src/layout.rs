//! Binary-space-partitioning tiling tree for terminal panes. Each leaf is a
//! pane identified by [`PaneId`]; internal nodes split a region either
//! horizontally (left | right) or vertically (top / bottom). Every split
//! divides its region into two equal halves.

use vstd::prelude::*;

verus! {

pub type PaneId = u64;

#[derive(Debug, Clone, Copy, PartialEq, Eq, Structural)]
pub enum Split {
    /// Left | Right (vertical divider).
    Horizontal,
    /// Top / Bottom (horizontal divider).
    Vertical,
}

#[derive(Debug, Clone, Copy, PartialEq, Eq, Structural)]
pub enum Direction {
    Left,
    Right,
    Up,
    Down,
}

pub enum Node {
    Leaf(PaneId),
    Branch { split: Split, a: Box<Node>, b: Box<Node> },
}

/// One halving on the way from the whole viewport down to a pane: the
/// region is cut by `split` and the pane lies in the first half (left or
/// top) or, when `second` holds, in the second half (right or bottom).
#[derive(Debug, Clone, Copy, PartialEq, Eq, Structural)]
pub struct Half {
    pub split: Split,
    pub second: bool,
}

/// Where a pane sits: the chain of halvings from the viewport to its region.
pub struct Placement {
    pub pane: PaneId,
    pub path: Vec<Half>,
}

impl View for Placement {
    type V = (PaneId, Seq<Half>);

    open spec fn view(&self) -> (PaneId, Seq<Half>) {
        (self.pane, self.path@)
    }
}

pub open spec fn placement_views(v: Seq<Placement>) -> Seq<(PaneId, Seq<Half>)> {
    v.map_values(|p: Placement| p@)
}

/// `s` with `n` inserted right after the first occurrence of `t`; `s` itself
/// when `t` does not occur.
pub open spec fn insert_after_first(s: Seq<PaneId>, t: PaneId, n: PaneId) -> Seq<PaneId>
    decreases s.len(),
{
    if s.len() == 0 {
        s
    } else if s[0] == t {
        seq![t, n] + s.drop_first()
    } else {
        seq![s[0]] + insert_after_first(s.drop_first(), t, n)
    }
}

/// `s` with every occurrence of `t` taken out.
pub open spec fn without(s: Seq<PaneId>, t: PaneId) -> Seq<PaneId>
    decreases s.len(),
{
    if s.len() == 0 {
        s
    } else if s[0] == t {
        without(s.drop_first(), t)
    } else {
        seq![s[0]] + without(s.drop_first(), t)
    }
}

impl Node {
    /// The panes of the tree, left (top) to right (bottom).
    pub open spec fn leaves(self) -> Seq<PaneId>
        decreases self,
    {
        match self {
            Node::Leaf(id) => seq![id],
            Node::Branch { a, b, .. } => a.leaves() + b.leaves(),
        }
    }

    pub open spec fn leftmost(self) -> PaneId
        decreases self,
    {
        match self {
            Node::Leaf(id) => id,
            Node::Branch { a, .. } => a.leftmost(),
        }
    }

    /// The first leaf `target` (left to right) replaced by an even split of
    /// itself and `new_pane`; the flag tells whether such a leaf was found.
    pub open spec fn split_spec(self, target: PaneId, new_pane: PaneId, split: Split) -> (
        Node,
        bool,
    )
        decreases self,
    {
        match self {
            Node::Leaf(id) => if id == target {
                (
                    Node::Branch {
                        split,
                        a: Box::new(Node::Leaf(id)),
                        b: Box::new(Node::Leaf(new_pane)),
                    },
                    true,
                )
            } else {
                (self, false)
            },
            Node::Branch { split: s, a, b } => {
                let (na, fa) = a.split_spec(target, new_pane, split);
                if fa {
                    (Node::Branch { split: s, a: Box::new(na), b }, true)
                } else {
                    let (nb, fb) = b.split_spec(target, new_pane, split);
                    (Node::Branch { split: s, a, b: Box::new(nb) }, fb)
                }
            },
        }
    }

    /// The tree with a leaf `target` taken out and its parent collapsed into
    /// the sibling. At each branch a child leaf equal to `target` (first the
    /// first child, then the second) is taken before either subtree is
    /// searched. The flag tells whether a leaf was taken out.
    pub open spec fn remove_spec(self, target: PaneId) -> (Node, bool)
        decreases self,
    {
        match self {
            Node::Leaf(_) => (self, false),
            Node::Branch { split, a, b } => {
                if *a == Node::Leaf(target) {
                    (*b, true)
                } else if *b == Node::Leaf(target) {
                    (*a, true)
                } else {
                    let (na, fa) = a.remove_spec(target);
                    if fa {
                        (Node::Branch { split, a: Box::new(na), b }, true)
                    } else {
                        let (nb, fb) = b.remove_spec(target);
                        (Node::Branch { split, a, b: Box::new(nb) }, fb)
                    }
                }
            },
        }
    }

    /// Every leaf with its chain of halvings, each chain starting with `prefix`.
    pub open spec fn placements(self, prefix: Seq<Half>) -> Seq<(PaneId, Seq<Half>)>
        decreases self,
    {
        match self {
            Node::Leaf(id) => seq![(id, prefix)],
            Node::Branch { split, a, b } => a.placements(
                prefix.push(Half { split, second: false }),
            ) + b.placements(prefix.push(Half { split, second: true })),
        }
    }
}

pub struct Layout {
    root: Node,
    focused: PaneId,
}

impl Layout {
    /// The tiling tree.
    pub closed spec fn tree(&self) -> Node {
        self.root
    }

    /// The focused pane.
    pub closed spec fn focus(&self) -> PaneId {
        self.focused
    }

    pub open spec fn panes(&self) -> Seq<PaneId> {
        self.tree().leaves()
    }

    pub fn new(initial: PaneId) -> (l: Self)
        ensures
            l.tree() == Node::Leaf(initial),
            l.focus() == initial,
            l.panes() == seq![initial],
    {
        Layout { root: Node::Leaf(initial), focused: initial }
    }

    pub fn focused(&self) -> (id: PaneId)
        ensures
            id == self.focus(),
    {
        self.focused
    }

    pub fn set_focused(&mut self, id: PaneId)
        ensures
            final(self).focus() == id,
            final(self).tree() == old(self).tree(),
    {
        self.focused = id;
    }

    /// The placement of every leaf, left (top) to right (bottom).
    pub fn compute(&self) -> (out: Vec<Placement>)
        ensures
            placement_views(out@) == self.tree().placements(seq![]),
    {
        let mut out: Vec<Placement> = Vec::new();
        let prefix: Vec<Half> = Vec::new();
        compute(&self.root, &prefix, &mut out);
        assert(placement_views(out@) =~= placement_views(Seq::<Placement>::empty())
            + self.root.placements(prefix@));
        out
    }

    /// Replace the focused leaf with a branch holding that same leaf and
    /// a fresh leaf for `new_pane`. Focus moves to the new pane.
    pub fn split_focused(&mut self, new_pane: PaneId, split: Split)
        ensures
            final(self).tree() == old(self).tree().split_spec(old(self).focus(), new_pane, split).0,
            final(self).focus() == new_pane,
            final(self).panes() == insert_after_first(old(self).panes(), old(self).focus(), new_pane),
    {
        let focused = self.focused;
        let mut root = Node::Leaf(0);
        std::mem::swap(&mut root, &mut self.root);
        let (root, _) = split_walk(root, focused, new_pane, split);
        proof {
            lemma_split_leaves(old(self).root, focused, new_pane, split);
        }
        self.root = root;
        self.focused = new_pane;
    }

    /// Remove the focused leaf, collapsing its parent into the surviving
    /// sibling. Returns `false` if there is only one pane left (refused).
    pub fn close_focused(&mut self) -> (closed: bool)
        ensures
            closed == (old(self).tree() is Branch),
            !closed ==> *final(self) == *old(self),
            closed ==> final(self).tree() == old(self).tree().remove_spec(old(self).focus()).0,
            closed ==> final(self).focus() == final(self).tree().leftmost(),
            closed ==> final(self).focus() == final(self).panes()[0],
            closed && old(self).panes().no_duplicates() ==> final(self).panes() == without(
                old(self).panes(),
                old(self).focus(),
            ),
    {
        if let Node::Leaf(_) = &self.root {
            return false;
        }
        let focused = self.focused;
        let mut root = Node::Leaf(0);
        std::mem::swap(&mut root, &mut self.root);
        let ghost old_root = root;
        let (root, _) = remove_walk(root, focused);
        self.root = root;
        self.focused = leftmost_leaf(&self.root);
        proof {
            lemma_leftmost_first(self.root);
            if old_root.leaves().no_duplicates() {
                lemma_remove_leaves(old_root, focused);
                if !old_root.remove_spec(focused).1 {
                    if let Node::Leaf(id) = old_root {
                        assert(old_root.leaves() =~= seq![id]);
                        assert(!old_root.leaves().contains(focused)) by {
                            if old_root.leaves().contains(focused) {
                                let i = choose|i: int|
                                    0 <= i < old_root.leaves().len() && old_root.leaves()[i]
                                        == focused;
                                assert(i == 0);
                            }
                        }
                    }
                    lemma_without_absent(old_root.leaves(), focused);
                }
            }
        }
        true
    }

    pub fn leaves(&self) -> (out: Vec<PaneId>)
        ensures
            out@ == self.panes(),
    {
        let mut out: Vec<PaneId> = Vec::new();
        collect_leaves(&self.root, &mut out);
        assert(out@ =~= self.root.leaves());
        out
    }
}

fn compute(node: &Node, prefix: &Vec<Half>, out: &mut Vec<Placement>)
    ensures
        placement_views(final(out)@) == placement_views(old(out)@) + node.placements(prefix@),
    decreases node,
{
    match node {
        Node::Leaf(id) => {
            let ghost before = out@;
            let path = prefix.clone();
            assert(path@ =~= prefix@);
            out.push(Placement { pane: *id, path });
            assert(placement_views(out@) =~= placement_views(before) + node.placements(prefix@));
        },
        Node::Branch { split, a, b } => {
            let ghost before = out@;
            let mut pa = prefix.clone();
            assert(pa@ =~= prefix@);
            pa.push(Half { split: *split, second: false });
            compute(a, &pa, out);
            let ghost mid = out@;
            let mut pb = prefix.clone();
            assert(pb@ =~= prefix@);
            pb.push(Half { split: *split, second: true });
            compute(b, &pb, out);
            assert(placement_views(out@) =~= placement_views(before) + node.placements(prefix@));
        },
    }
}

fn split_walk(node: Node, target: PaneId, new_pane: PaneId, split: Split) -> (res: (Node, bool))
    ensures
        res.0 == node.split_spec(target, new_pane, split).0,
        res.1 == node.split_spec(target, new_pane, split).1,
    decreases node,
{
    match node {
        Node::Leaf(id) => {
            if id == target {
                (
                    Node::Branch {
                        split,
                        a: Box::new(Node::Leaf(id)),
                        b: Box::new(Node::Leaf(new_pane)),
                    },
                    true,
                )
            } else {
                (Node::Leaf(id), false)
            }
        },
        Node::Branch { split: s, a, b } => {
            proof {
                lemma_split_unchanged(*a, target, new_pane, split);
            }
            let (na, fa) = split_walk(*a, target, new_pane, split);
            if fa {
                (Node::Branch { split: s, a: Box::new(na), b }, true)
            } else {
                let (nb, fb) = split_walk(*b, target, new_pane, split);
                (Node::Branch { split: s, a: Box::new(na), b: Box::new(nb) }, fb)
            }
        },
    }
}

fn is_leaf_of(node: &Node, target: PaneId) -> (r: bool)
    ensures
        r == (*node == Node::Leaf(target)),
{
    match node {
        Node::Leaf(id) => *id == target,
        Node::Branch { .. } => false,
    }
}

fn remove_walk(node: Node, target: PaneId) -> (res: (Node, bool))
    ensures
        res.0 == node.remove_spec(target).0,
        res.1 == node.remove_spec(target).1,
    decreases node,
{
    match node {
        Node::Leaf(id) => (Node::Leaf(id), false),
        Node::Branch { split, a, b } => {
            if is_leaf_of(&a, target) {
                return (*b, true);
            }
            if is_leaf_of(&b, target) {
                return (*a, true);
            }
            proof {
                lemma_remove_unchanged(*a, target);
            }
            let (na, fa) = remove_walk(*a, target);
            if fa {
                return (Node::Branch { split, a: Box::new(na), b }, true);
            }
            let (nb, fb) = remove_walk(*b, target);
            (Node::Branch { split, a: Box::new(na), b: Box::new(nb) }, fb)
        },
    }
}

fn leftmost_leaf(node: &Node) -> (id: PaneId)
    ensures
        id == node.leftmost(),
    decreases node,
{
    match node {
        Node::Leaf(id) => *id,
        Node::Branch { a, .. } => leftmost_leaf(a),
    }
}

fn collect_leaves(node: &Node, out: &mut Vec<PaneId>)
    ensures
        final(out)@ == old(out)@ + node.leaves(),
    decreases node,
{
    match node {
        Node::Leaf(id) => {
            out.push(*id);
        },
        Node::Branch { a, b, .. } => {
            collect_leaves(a, out);
            collect_leaves(b, out);
            assert(out@ =~= old(out)@ + node.leaves());
        },
    }
}

proof fn lemma_split_unchanged(node: Node, target: PaneId, new_pane: PaneId, split: Split)
    ensures
        !node.split_spec(target, new_pane, split).1 ==> node.split_spec(target, new_pane, split).0
            == node,
    decreases node,
{
    if let Node::Branch { a, b, .. } = node {
        lemma_split_unchanged(*a, target, new_pane, split);
        lemma_split_unchanged(*b, target, new_pane, split);
    }
}

proof fn lemma_remove_unchanged(node: Node, target: PaneId)
    ensures
        !node.remove_spec(target).1 ==> node.remove_spec(target).0 == node,
    decreases node,
{
    if let Node::Branch { a, b, .. } = node {
        lemma_remove_unchanged(*a, target);
        lemma_remove_unchanged(*b, target);
    }
}

// ---------------------------------------------------------------------------
// Lemmas relating the tree operations to the sequence of panes.
// ---------------------------------------------------------------------------

/// Every tree holds at least one pane.
pub proof fn lemma_leaves_nonempty(node: Node)
    ensures
        node.leaves().len() >= 1,
    decreases node,
{
    match node {
        Node::Leaf(_) => {},
        Node::Branch { a, b, .. } => {
            lemma_leaves_nonempty(*a);
            lemma_leaves_nonempty(*b);
        },
    }
}

/// The leftmost leaf is the first pane of the tree.
pub proof fn lemma_leftmost_first(node: Node)
    ensures
        node.leaves().len() >= 1,
        node.leftmost() == node.leaves()[0],
    decreases node,
{
    match node {
        Node::Leaf(_) => {},
        Node::Branch { a, b, .. } => {
            lemma_leftmost_first(*a);
            lemma_leaves_nonempty(*b);
        },
    }
}

proof fn lemma_insert_after_concat(x: Seq<PaneId>, y: Seq<PaneId>, t: PaneId, n: PaneId)
    ensures
        insert_after_first(x + y, t, n) == if x.contains(t) {
            insert_after_first(x, t, n) + y
        } else {
            x + insert_after_first(y, t, n)
        },
    decreases x.len(),
{
    if x.len() == 0 {
        assert(x + y =~= y);
    } else {
        let xy = x + y;
        assert(xy[0] == x[0]);
        assert(xy.drop_first() =~= x.drop_first() + y);
        lemma_insert_after_concat(x.drop_first(), y, t, n);
        if x[0] == t {
            assert(x.contains(t));
            assert(insert_after_first(x + y, t, n) =~= insert_after_first(x, t, n) + y);
        } else {
            assert(x.contains(t) == x.drop_first().contains(t)) by {
                if x.contains(t) {
                    let i = choose|i: int| 0 <= i < x.len() && x[i] == t;
                    assert(x.drop_first()[i - 1] == t);
                }
                if x.drop_first().contains(t) {
                    let i = choose|i: int| 0 <= i < x.drop_first().len() && x.drop_first()[i] == t;
                    assert(x[i + 1] == t);
                }
            }
            if x.contains(t) {
                assert(insert_after_first(x + y, t, n) =~= insert_after_first(x, t, n) + y);
            } else {
                assert(insert_after_first(x + y, t, n) =~= x + insert_after_first(y, t, n));
            }
        }
    }
}

/// Splitting a leaf inserts the new pane right after the first occurrence of
/// the split pane in the sequence of panes, and nothing else changes.
pub proof fn lemma_split_leaves(node: Node, target: PaneId, new_pane: PaneId, split: Split)
    ensures
        node.split_spec(target, new_pane, split).0.leaves() == insert_after_first(
            node.leaves(),
            target,
            new_pane,
        ),
        node.split_spec(target, new_pane, split).1 == node.leaves().contains(target),
    decreases node,
{
    match node {
        Node::Leaf(id) => {
            let s = node.leaves();
            assert(s.drop_first() =~= Seq::<PaneId>::empty());
            if id == target {
                assert(s.contains(target)) by {
                    assert(s[0] == target);
                }
                assert(insert_after_first(s, target, new_pane) =~= seq![target, new_pane]);
                let sp = node.split_spec(target, new_pane, split).0;
                assert(sp->a.leaves() == seq![target]);
                assert(sp->b.leaves() == seq![new_pane]);
                assert(node.split_spec(target, new_pane, split).0.leaves() =~= seq![
                    target,
                    new_pane,
                ]);
            } else {
                assert(insert_after_first(s.drop_first(), target, new_pane) =~= Seq::<
                    PaneId,
                >::empty());
                assert(insert_after_first(s, target, new_pane) =~= s);
                assert(!s.contains(target));
            }
        },
        Node::Branch { split: sp, a, b } => {
            lemma_split_leaves(*a, target, new_pane, split);
            lemma_split_leaves(*b, target, new_pane, split);
            lemma_insert_after_concat(a.leaves(), b.leaves(), target, new_pane);
            let la = a.leaves();
            let lb = b.leaves();
            assert((la + lb).contains(target) == (la.contains(target) || lb.contains(target))) by {
                if (la + lb).contains(target) {
                    let i = choose|i: int| 0 <= i < (la + lb).len() && (la + lb)[i] == target;
                    if i < la.len() {
                        assert(la[i] == target);
                    } else {
                        assert(lb[i - la.len()] == target);
                    }
                }
                if la.contains(target) {
                    let i = choose|i: int| 0 <= i < la.len() && la[i] == target;
                    assert((la + lb)[i] == target);
                }
                if lb.contains(target) {
                    let i = choose|i: int| 0 <= i < lb.len() && lb[i] == target;
                    assert((la + lb)[i + la.len()] == target);
                }
            }
        },
    }
}

proof fn lemma_without_concat(x: Seq<PaneId>, y: Seq<PaneId>, t: PaneId)
    ensures
        without(x + y, t) == without(x, t) + without(y, t),
    decreases x.len(),
{
    if x.len() == 0 {
        assert(x + y =~= y);
        assert(without(x, t) + without(y, t) =~= without(y, t));
    } else {
        let xy = x + y;
        assert(xy[0] == x[0]);
        assert(xy.drop_first() =~= x.drop_first() + y);
        lemma_without_concat(x.drop_first(), y, t);
        if x[0] == t {
        } else {
            assert(without(x + y, t) =~= without(x, t) + without(y, t));
        }
    }
}

/// Taking out a pane that does not occur leaves a sequence unchanged.
pub proof fn lemma_without_absent(s: Seq<PaneId>, t: PaneId)
    requires
        !s.contains(t),
    ensures
        without(s, t) == s,
    decreases s.len(),
{
    if s.len() > 0 {
        assert(s[0] != t);
        assert(!s.drop_first().contains(t)) by {
            if s.drop_first().contains(t) {
                let i = choose|i: int| 0 <= i < s.drop_first().len() && s.drop_first()[i] == t;
                assert(s[i + 1] == t);
            }
        }
        lemma_without_absent(s.drop_first(), t);
        assert(without(s, t) =~= s);
    }
}

proof fn lemma_contains_concat(x: Seq<PaneId>, y: Seq<PaneId>, t: PaneId)
    ensures
        (x + y).contains(t) == (x.contains(t) || y.contains(t)),
{
    if (x + y).contains(t) {
        let i = choose|i: int| 0 <= i < (x + y).len() && (x + y)[i] == t;
        if i < x.len() {
            assert(x[i] == t);
        } else {
            assert(y[i - x.len()] == t);
        }
    }
    if x.contains(t) {
        let i = choose|i: int| 0 <= i < x.len() && x[i] == t;
        assert((x + y)[i] == t);
    }
    if y.contains(t) {
        let i = choose|i: int| 0 <= i < y.len() && y[i] == t;
        assert((x + y)[i + x.len()] == t);
    }
}

proof fn lemma_no_dup_concat(x: Seq<PaneId>, y: Seq<PaneId>)
    requires
        (x + y).no_duplicates(),
    ensures
        x.no_duplicates(),
        y.no_duplicates(),
        forall|t: PaneId| x.contains(t) ==> !y.contains(t),
{
    let xy = x + y;
    assert forall|i: int, j: int| 0 <= i < x.len() && 0 <= j < x.len() && i != j implies x[i]
        != x[j] by {
        assert(xy[i] == x[i] && xy[j] == x[j]);
    }
    assert forall|i: int, j: int| 0 <= i < y.len() && 0 <= j < y.len() && i != j implies y[i]
        != y[j] by {
        assert(xy[i + x.len()] == y[i] && xy[j + x.len()] == y[j]);
    }
    assert forall|t: PaneId| x.contains(t) implies !y.contains(t) by {
        let i = choose|i: int| 0 <= i < x.len() && x[i] == t;
        if y.contains(t) {
            let j = choose|j: int| 0 <= j < y.len() && y[j] == t;
            assert(xy[i] == xy[j + x.len()]);
        }
    }
}

/// With pairwise distinct panes, taking a pane out of the tree takes exactly
/// that pane out of the sequence of panes; the flag tells whether the tree
/// was a branch holding the pane.
pub proof fn lemma_remove_leaves(node: Node, target: PaneId)
    requires
        node.leaves().no_duplicates(),
    ensures
        node.remove_spec(target).1 == (node is Branch && node.leaves().contains(target)),
        node.remove_spec(target).1 ==> node.remove_spec(target).0.leaves() == without(
            node.leaves(),
            target,
        ),
        node.remove_spec(target).0.leaves().no_duplicates(),
        !node.remove_spec(target).1 ==> node.remove_spec(target).0 == node,
    decreases node,
{
    match node {
        Node::Leaf(id) => {},
        Node::Branch { split, a, b } => {
            let la = a.leaves();
            let lb = b.leaves();
            lemma_no_dup_concat(la, lb);
            lemma_contains_concat(la, lb, target);
            lemma_without_concat(la, lb, target);
            if *a == Node::Leaf(target) {
                assert(la =~= seq![target]);
                assert(la.contains(target)) by {
                    assert(la[0] == target);
                }
                assert(!lb.contains(target));
                lemma_without_absent(lb, target);
                assert(without(la, target) =~= Seq::<PaneId>::empty()) by {
                    assert(la.drop_first() =~= Seq::<PaneId>::empty());
                    assert(without(la.drop_first(), target) =~= Seq::<PaneId>::empty());
                }
                assert(without(la, target) + without(lb, target) =~= lb);
            } else if *b == Node::Leaf(target) {
                assert(lb =~= seq![target]);
                assert(lb.contains(target)) by {
                    assert(lb[0] == target);
                }
                assert(!la.contains(target));
                lemma_without_absent(la, target);
                assert(without(lb, target) =~= Seq::<PaneId>::empty()) by {
                    assert(lb.drop_first() =~= Seq::<PaneId>::empty());
                    assert(without(lb.drop_first(), target) =~= Seq::<PaneId>::empty());
                }
                assert(without(la, target) + without(lb, target) =~= la);
            } else {
                lemma_remove_leaves(*a, target);
                lemma_remove_leaves(*b, target);
                let (na, fa) = a.remove_spec(target);
                let (nb, fb) = b.remove_spec(target);
                // a leaf child that is not `target` holds no `target`
                if !(*a is Branch) {
                    assert(la.len() == 1);
                    assert(!la.contains(target)) by {
                        if la.contains(target) {
                            let i = choose|i: int| 0 <= i < la.len() && la[i] == target;
                            assert(i == 0);
                        }
                    }
                }
                if !(*b is Branch) {
                    assert(!lb.contains(target)) by {
                        if lb.contains(target) {
                            let i = choose|i: int| 0 <= i < lb.len() && lb[i] == target;
                            assert(i == 0);
                        }
                    }
                }
                if fa {
                    assert(!lb.contains(target));
                    lemma_without_absent(lb, target);
                    lemma_no_dup_after_without(la, target);
                    lemma_no_dup_join_without(la, lb, target);
                } else {
                    assert(!la.contains(target));
                    lemma_without_absent(la, target);
                    if fb {
                        lemma_no_dup_join_without(la, lb, target);
                    }
                }
            }
        },
    }
}

/// Taking a pane out adds no pane.
pub proof fn lemma_without_subset(s: Seq<PaneId>, t: PaneId, x: PaneId)
    ensures
        without(s, t).contains(x) ==> s.contains(x),
    decreases s.len(),
{
    if s.len() > 0 {
        lemma_without_subset(s.drop_first(), t, x);
        if without(s, t).contains(x) {
            if s[0] == t {
                let i = choose|i: int|
                    0 <= i < without(s.drop_first(), t).len() && without(s.drop_first(), t)[i]
                        == x;
                let j = choose|j: int| 0 <= j < s.drop_first().len() && s.drop_first()[j] == x;
                assert(s[j + 1] == x);
            } else {
                let w = without(s.drop_first(), t);
                let i = choose|i: int| 0 <= i < (seq![s[0]] + w).len() && (seq![s[0]] + w)[i] == x;
                if i == 0 {
                    assert(s[0] == x);
                } else {
                    assert(w[i - 1] == x);
                    let j = choose|j: int| 0 <= j < s.drop_first().len() && s.drop_first()[j] == x;
                    assert(s[j + 1] == x);
                }
            }
        }
    }
}

/// Taking a pane out keeps a sequence free of duplicates.
pub proof fn lemma_no_dup_after_without(s: Seq<PaneId>, t: PaneId)
    requires
        s.no_duplicates(),
    ensures
        without(s, t).no_duplicates(),
    decreases s.len(),
{
    if s.len() > 0 {
        let r = s.drop_first();
        assert(r.no_duplicates()) by {
            assert forall|i: int, j: int| 0 <= i < r.len() && 0 <= j < r.len() && i != j implies r[i]
                != r[j] by {
                assert(s[i + 1] == r[i] && s[j + 1] == r[j]);
            }
        }
        lemma_no_dup_after_without(r, t);
        if s[0] != t {
            let w = without(r, t);
            assert(!r.contains(s[0])) by {
                if r.contains(s[0]) {
                    let j = choose|j: int| 0 <= j < r.len() && r[j] == s[0];
                    assert(s[j + 1] == s[0]);
                }
            }
            lemma_without_subset(r, t, s[0]);
            let v = seq![s[0]] + w;
            assert forall|i: int, j: int| 0 <= i < v.len() && 0 <= j < v.len() && i != j implies v[i]
                != v[j] by {
                if i == 0 && j > 0 {
                    assert(v[j] == w[j - 1]);
                    if v[i] == v[j] {
                        assert(w.contains(s[0]));
                    }
                } else if j == 0 && i > 0 {
                    assert(v[i] == w[i - 1]);
                    if v[i] == v[j] {
                        assert(w.contains(s[0]));
                    }
                } else if i > 0 && j > 0 {
                    assert(v[i] == w[i - 1] && v[j] == w[j - 1]);
                }
            }
        }
    }
}

proof fn lemma_no_dup_join_without(x: Seq<PaneId>, y: Seq<PaneId>, t: PaneId)
    requires
        (x + y).no_duplicates(),
    ensures
        (without(x, t) + without(y, t)).no_duplicates(),
{
    lemma_no_dup_concat(x, y);
    lemma_no_dup_after_without(x, t);
    lemma_no_dup_after_without(y, t);
    let wx = without(x, t);
    let wy = without(y, t);
    let v = wx + wy;
    assert forall|i: int, j: int| 0 <= i < v.len() && 0 <= j < v.len() && i != j implies v[i]
        != v[j] by {
        if i < wx.len() && j >= wx.len() {
            let e = v[i];
            assert(wx.contains(e)) by {
                assert(wx[i] == e);
            }
            lemma_without_subset(x, t, e);
            if v[j] == e {
                assert(wy.contains(e)) by {
                    assert(wy[j - wx.len()] == e);
                }
                lemma_without_subset(y, t, e);
            }
        } else if j < wx.len() && i >= wx.len() {
            let e = v[j];
            assert(wx.contains(e)) by {
                assert(wx[j] == e);
            }
            lemma_without_subset(x, t, e);
            if v[i] == e {
                assert(wy.contains(e)) by {
                    assert(wy[i - wx.len()] == e);
                }
                lemma_without_subset(y, t, e);
            }
        } else if i < wx.len() {
            assert(v[i] == wx[i] && v[j] == wx[j]);
        } else {
            assert(v[i] == wy[i - wx.len()] && v[j] == wy[j - wx.len()]);
        }
    }
}

/// Inserting a fresh pane into a duplicate-free sequence keeps it free of
/// duplicates, and taking the fresh pane out again gives the sequence back.
pub proof fn lemma_insert_after_props(s: Seq<PaneId>, t: PaneId, n: PaneId)
    requires
        !s.contains(n),
        s.no_duplicates(),
    ensures
        without(insert_after_first(s, t, n), n) == s,
        insert_after_first(s, t, n).no_duplicates(),
        s.contains(t) ==> insert_after_first(s, t, n).contains(n),
        forall|x: PaneId|
            insert_after_first(s, t, n).contains(x) ==> x == n || s.contains(x),
    decreases s.len(),
{
    if s.len() > 0 {
        let r = s.drop_first();
        assert(!r.contains(n)) by {
            if r.contains(n) {
                let j = choose|j: int| 0 <= j < r.len() && r[j] == n;
                assert(s[j + 1] == n);
            }
        }
        assert(r.no_duplicates()) by {
            assert forall|i: int, j: int| 0 <= i < r.len() && 0 <= j < r.len() && i != j implies r[i]
                != r[j] by {
                assert(s[i + 1] == r[i] && s[j + 1] == r[j]);
            }
        }
        assert(!r.contains(s[0])) by {
            if r.contains(s[0]) {
                let j = choose|j: int| 0 <= j < r.len() && r[j] == s[0];
                assert(s[j + 1] == s[0]);
            }
        }
        assert(s[0] != n) by {
            assert(s.contains(s[0])) by {
                assert(s[0] == s[0]);
            }
        }
        assert(forall|x: PaneId| s.contains(x) ==> x == s[0] || r.contains(x)) by {
            assert forall|x: PaneId| s.contains(x) implies x == s[0] || r.contains(x) by {
                let j = choose|j: int| 0 <= j < s.len() && s[j] == x;
                if j > 0 {
                    assert(r[j - 1] == x);
                }
            }
        }
        lemma_insert_after_props(r, t, n);
        let out = insert_after_first(s, t, n);
        if s[0] == t {
            assert(out =~= seq![t, n] + r);
            assert(out.drop_first() =~= seq![n] + r);
            assert((seq![n] + r).drop_first() =~= r);
            lemma_without_absent(r, n);
            assert(without(seq![n] + r, n) =~= r);
            assert(without(out, n) =~= s);
            assert forall|i: int, j: int| 0 <= i < out.len() && 0 <= j < out.len() && i != j implies out[i]
                != out[j] by {
                if i >= 2 && j >= 2 {
                    assert(out[i] == r[i - 2] && out[j] == r[j - 2]);
                } else if i >= 2 {
                    assert(r.contains(out[i])) by {
                        assert(r[i - 2] == out[i]);
                    }
                } else if j >= 2 {
                    assert(r.contains(out[j])) by {
                        assert(r[j - 2] == out[j]);
                    }
                }
            }
            assert(out.contains(n)) by {
                assert(out[1] == n);
            }
            assert forall|x: PaneId| out.contains(x) implies x == n || s.contains(x) by {
                let j = choose|j: int| 0 <= j < out.len() && out[j] == x;
                if j == 0 {
                    assert(s[0] == x);
                } else if j >= 2 {
                    assert(r[j - 2] == x);
                    assert(s[j - 1] == x);
                }
            }
        } else {
            let w = insert_after_first(r, t, n);
            assert(out =~= seq![s[0]] + w);
            assert(out.drop_first() =~= w);
            assert(without(out, n) =~= s);
            assert(!w.contains(s[0])) by {
                if w.contains(s[0]) {
                    assert(s[0] == n || r.contains(s[0]));
                }
            }
            assert forall|i: int, j: int| 0 <= i < out.len() && 0 <= j < out.len() && i != j implies out[i]
                != out[j] by {
                if i >= 1 && j >= 1 {
                    assert(out[i] == w[i - 1] && out[j] == w[j - 1]);
                } else if i >= 1 {
                    assert(w.contains(out[i])) by {
                        assert(w[i - 1] == out[i]);
                    }
                } else if j >= 1 {
                    assert(w.contains(out[j])) by {
                        assert(w[j - 1] == out[j]);
                    }
                }
            }
            if s.contains(t) {
                assert(r.contains(t)) by {
                    let j = choose|j: int| 0 <= j < s.len() && s[j] == t;
                    assert(j > 0);
                    assert(r[j - 1] == t);
                }
                let j = choose|j: int| 0 <= j < w.len() && w[j] == n;
                assert(out[j + 1] == n);
            }
            assert forall|x: PaneId| out.contains(x) implies x == n || s.contains(x) by {
                let j = choose|j: int| 0 <= j < out.len() && out[j] == x;
                if j == 0 {
                    assert(s[0] == x);
                } else {
                    assert(w[j - 1] == x);
                    if x != n {
                        assert(r.contains(x));
                        let k = choose|k: int| 0 <= k < r.len() && r[k] == x;
                        assert(s[k + 1] == x);
                    }
                }
            }
        }
    }
}

/// Closing a pane right after splitting it off undoes the split: with
/// pairwise distinct panes, a focused pane that is in the tree and a new pane
/// that is not, splitting the focused pane and then closing the (new, now
/// focused) pane is not refused and gives back the sequence of
/// panes from before the split.
pub proof fn law_split_then_close_restores_panes(
    tree: Node,
    focus: PaneId,
    new_pane: PaneId,
    split: Split,
)
    requires
        tree.leaves().no_duplicates(),
        tree.leaves().contains(focus),
        !tree.leaves().contains(new_pane),
    ensures
        tree.split_spec(focus, new_pane, split).0 != Node::Leaf(new_pane),
        tree.split_spec(focus, new_pane, split).0.remove_spec(new_pane).1,
        tree.split_spec(focus, new_pane, split).0.remove_spec(new_pane).0.leaves()
            == tree.leaves(),
{
    let t1 = tree.split_spec(focus, new_pane, split).0;
    lemma_split_leaves(tree, focus, new_pane, split);
    lemma_insert_after_props(tree.leaves(), focus, new_pane);
    assert(t1 is Branch) by {
        if let Node::Branch { a, b, .. } = tree {
        }
    }
    lemma_remove_leaves(t1, new_pane);
}

/// A split is never refused: after splitting, the new pane is in the tree
/// (when the focused pane was) and no other pane appears or disappears.
pub proof fn law_split_adds_exactly_new_pane(
    tree: Node,
    focus: PaneId,
    new_pane: PaneId,
    split: Split,
)
    requires
        tree.leaves().no_duplicates(),
        tree.leaves().contains(focus),
        !tree.leaves().contains(new_pane),
    ensures
        tree.split_spec(focus, new_pane, split).1,
        tree.split_spec(focus, new_pane, split).0.leaves().no_duplicates(),
        tree.split_spec(focus, new_pane, split).0.leaves().len() == tree.leaves().len() + 1,
        forall|x: PaneId|
            #![trigger tree.split_spec(focus, new_pane, split).0.leaves().contains(x)]
            tree.split_spec(focus, new_pane, split).0.leaves().contains(x) <==> (x == new_pane
                || tree.leaves().contains(x)),
{
    let t1 = tree.split_spec(focus, new_pane, split).0;
    lemma_split_leaves(tree, focus, new_pane, split);
    lemma_insert_after_props(tree.leaves(), focus, new_pane);
    lemma_remove_leaves(t1, new_pane);
    lemma_without_len(t1.leaves(), new_pane);
    assert forall|x: PaneId| tree.leaves().contains(x) implies t1.leaves().contains(x) by {
        lemma_without_subset(t1.leaves(), new_pane, x);
        lemma_without_keeps(t1.leaves(), new_pane, x);
    }
}

/// Taking one pane out keeps every other pane.
pub proof fn lemma_without_keeps(s: Seq<PaneId>, t: PaneId, x: PaneId)
    requires
        x != t,
        s.contains(x),
    ensures
        without(s, t).contains(x),
    decreases s.len(),
{
    let r = s.drop_first();
    if s[0] == x {
        assert(without(s, t)[0] == x);
    } else {
        let j = choose|j: int| 0 <= j < s.len() && s[j] == x;
        assert(r[j - 1] == x);
        lemma_without_keeps(r, t, x);
        let w = without(r, t);
        let k = choose|k: int| 0 <= k < w.len() && w[k] == x;
        if s[0] == t {
        } else {
            assert(without(s, t)[k + 1] == x);
        }
    }
}

proof fn lemma_without_len(s: Seq<PaneId>, t: PaneId)
    requires
        s.no_duplicates(),
    ensures
        s.contains(t) ==> without(s, t).len() + 1 == s.len(),
    decreases s.len(),
{
    if s.len() > 0 {
        let r = s.drop_first();
        assert(r.no_duplicates()) by {
            assert forall|i: int, j: int| 0 <= i < r.len() && 0 <= j < r.len() && i != j implies r[i]
                != r[j] by {
                assert(s[i + 1] == r[i] && s[j + 1] == r[j]);
            }
        }
        lemma_without_len(r, t);
        if s.contains(t) {
            if s[0] == t {
                assert(!r.contains(t)) by {
                    if r.contains(t) {
                        let j = choose|j: int| 0 <= j < r.len() && r[j] == t;
                        assert(s[j + 1] == t);
                    }
                }
                lemma_without_absent(r, t);
            } else {
                let j = choose|j: int| 0 <= j < s.len() && s[j] == t;
                assert(r[j - 1] == t);
            }
        }
    }
}

/// The placements of a tree name its panes exactly, in order.
pub proof fn law_placements_list_panes(tree: Node, prefix: Seq<Half>)
    ensures
        tree.placements(prefix).map_values(|p: (PaneId, Seq<Half>)| p.0) == tree.leaves(),
    decreases tree,
{
    match tree {
        Node::Leaf(id) => {
            assert(tree.placements(prefix).map_values(|p: (PaneId, Seq<Half>)| p.0) =~= seq![id]);
        },
        Node::Branch { split, a, b } => {
            let pa = prefix.push(Half { split, second: false });
            let pb = prefix.push(Half { split, second: true });
            law_placements_list_panes(*a, pa);
            law_placements_list_panes(*b, pb);
            assert(tree.placements(prefix).map_values(|p: (PaneId, Seq<Half>)| p.0) =~= a.placements(
                pa,
            ).map_values(|p: (PaneId, Seq<Half>)| p.0) + b.placements(pb).map_values(
                |p: (PaneId, Seq<Half>)| p.0,
            ));
        },
    }
}

/// `p` is a prefix of `q`.
pub open spec fn is_prefix_of(p: Seq<Half>, q: Seq<Half>) -> bool {
    p.len() <= q.len() && q.subrange(0, p.len() as int) == p
}

proof fn lemma_concat_has<T>(x: Seq<T>, y: Seq<T>, e: T)
    ensures
        (x + y).contains(e) == (x.contains(e) || y.contains(e)),
{
    if (x + y).contains(e) {
        let i = choose|i: int| 0 <= i < (x + y).len() && (x + y)[i] == e;
        if i < x.len() {
            assert(x[i] == e);
        } else {
            assert(y[i - x.len()] == e);
        }
    }
    if x.contains(e) {
        let i = choose|i: int| 0 <= i < x.len() && x[i] == e;
        assert((x + y)[i] == e);
    }
    if y.contains(e) {
        let i = choose|i: int| 0 <= i < y.len() && y[i] == e;
        assert((x + y)[i + x.len()] == e);
    }
}

/// A pane that has a placement is a pane of the tree.
proof fn lemma_placed_pane_is_leaf(tree: Node, prefix: Seq<Half>, p: PaneId, path: Seq<Half>)
    requires
        tree.placements(prefix).contains((p, path)),
    ensures
        tree.leaves().contains(p),
{
    law_placements_list_panes(tree, prefix);
    let pl = tree.placements(prefix);
    let i = choose|i: int| 0 <= i < pl.len() && pl[i] == (p, path);
    assert(pl.map_values(|q: (PaneId, Seq<Half>)| q.0)[i] == p);
}

/// A split finds its pane exactly when the pane is in the tree.
proof fn lemma_split_found(node: Node, target: PaneId, new_pane: PaneId, split: Split)
    ensures
        node.split_spec(target, new_pane, split).1 == node.leaves().contains(target),
        node.split_spec(target, new_pane, split).1 ==> node.split_spec(
            target,
            new_pane,
            split,
        ).0 is Branch,
    decreases node,
{
    match node {
        Node::Leaf(id) => {
            assert(node.leaves() =~= seq![id]);
            assert(node.leaves()[0] == id);
            if node.leaves().contains(target) {
                let k = choose|k: int| 0 <= k < node.leaves().len() && node.leaves()[k] == target;
                assert(k == 0);
            }
        },
        Node::Branch { a, b, .. } => {
            lemma_split_found(*a, target, new_pane, split);
            lemma_split_found(*b, target, new_pane, split);
            lemma_contains_concat(a.leaves(), b.leaves(), target);
        },
    }
}

/// Only a pane of the tree can be taken out of it.
proof fn lemma_remove_found_in(node: Node, target: PaneId)
    ensures
        node.remove_spec(target).1 ==> node.leaves().contains(target),
    decreases node,
{
    if let Node::Branch { a, b, .. } = node {
        lemma_remove_found_in(*a, target);
        lemma_remove_found_in(*b, target);
        lemma_contains_concat(a.leaves(), b.leaves(), target);
        if *a == Node::Leaf(target) {
            assert(a.leaves()[0] == target);
        }
        if *b == Node::Leaf(target) {
            assert(b.leaves()[0] == target);
        }
    }
}

/// Splitting a pane changes only that pane: with pairwise distinct panes, a
/// focused pane in the tree and a new pane that is not, every other pane
/// keeps exactly the region (chain of halvings) it had, and the focused pane's
/// region is cut in two by the new split, the focused pane keeping the first
/// half and the new pane taking the second.
pub proof fn law_split_changes_only_the_split_pane(
    tree: Node,
    prefix: Seq<Half>,
    target: PaneId,
    new_pane: PaneId,
    split: Split,
)
    requires
        tree.leaves().no_duplicates(),
        tree.leaves().contains(target),
        !tree.leaves().contains(new_pane),
    ensures
        forall|p: PaneId, path: Seq<Half>|
            p != target && p != new_pane ==> (tree.split_spec(target, new_pane, split).0.placements(
                prefix,
            ).contains((p, path)) <==> tree.placements(prefix).contains((p, path))),
        forall|path: Seq<Half>|
            tree.placements(prefix).contains((target, path)) ==> {
                &&& tree.split_spec(target, new_pane, split).0.placements(prefix).contains(
                    (target, path.push(Half { split, second: false })),
                )
                &&& tree.split_spec(target, new_pane, split).0.placements(prefix).contains(
                    (new_pane, path.push(Half { split, second: true })),
                )
            },
    decreases tree,
{
    let t1 = tree.split_spec(target, new_pane, split).0;
    match tree {
        Node::Leaf(id) => {
            assert(tree.leaves() =~= seq![id]);
            let k = choose|k: int| 0 <= k < tree.leaves().len() && tree.leaves()[k] == target;
            assert(k == 0);
            assert(id == target);
            let h0 = Half { split, second: false };
            let h1 = Half { split, second: true };
            let p1 = t1.placements(prefix);
            let la = Node::Leaf(target);
            let lb = Node::Leaf(new_pane);
            assert(t1 == Node::Branch { split, a: Box::new(la), b: Box::new(lb) });
            assert(la.placements(prefix.push(h0)) == seq![(target, prefix.push(h0))]);
            assert(lb.placements(prefix.push(h1)) == seq![(new_pane, prefix.push(h1))]);
            assert(p1 == la.placements(prefix.push(h0)) + lb.placements(prefix.push(h1)));
            assert(p1 =~= seq![(target, prefix.push(h0))] + seq![(new_pane, prefix.push(h1))]);
            assert(tree.placements(prefix) =~= seq![(id, prefix)]);
            assert forall|p: PaneId, path: Seq<Half>|
                p != target && p != new_pane implies (p1.contains((p, path)) <==> tree.placements(
                    prefix,
                ).contains((p, path))) by {
                if p1.contains((p, path)) {
                    let j = choose|j: int| 0 <= j < p1.len() && p1[j] == (p, path);
                }
                if tree.placements(prefix).contains((p, path)) {
                    let j = choose|j: int|
                        0 <= j < tree.placements(prefix).len() && tree.placements(prefix)[j] == (
                            p,
                            path,
                        );
                }
            }
            assert forall|path: Seq<Half>| tree.placements(prefix).contains((target, path)) implies {
                &&& p1.contains((target, path.push(h0)))
                &&& p1.contains((new_pane, path.push(h1)))
            } by {
                let j = choose|j: int|
                    0 <= j < tree.placements(prefix).len() && tree.placements(prefix)[j] == (
                        target,
                        path,
                    );
                assert(path == prefix);
                assert(p1[0] == (target, path.push(h0)));
                assert(p1[1] == (new_pane, path.push(h1)));
            }
        },
        Node::Branch { split: s, a, b } => {
            let pa = prefix.push(Half { split: s, second: false });
            let pb = prefix.push(Half { split: s, second: true });
            lemma_no_dup_concat(a.leaves(), b.leaves());
            lemma_contains_concat(a.leaves(), b.leaves(), target);
            lemma_contains_concat(a.leaves(), b.leaves(), new_pane);
            lemma_split_found(*a, target, new_pane, split);
            lemma_split_unchanged(*a, target, new_pane, split);
            lemma_split_unchanged(*b, target, new_pane, split);
            let p0 = tree.placements(prefix);
            let p1 = t1.placements(prefix);
            if a.leaves().contains(target) {
                law_split_changes_only_the_split_pane(*a, pa, target, new_pane, split);
                let a1 = a.split_spec(target, new_pane, split).0;
                assert(p1 == a1.placements(pa) + b.placements(pb));
                assert forall|p: PaneId, path: Seq<Half>|
                    p != target && p != new_pane implies (p1.contains((p, path)) <==> p0.contains(
                        (p, path),
                    )) by {
                    lemma_concat_has(a1.placements(pa), b.placements(pb), (p, path));
                    lemma_concat_has(a.placements(pa), b.placements(pb), (p, path));
                }
                assert forall|path: Seq<Half>| p0.contains((target, path)) implies {
                    &&& p1.contains((target, path.push(Half { split, second: false })))
                    &&& p1.contains((new_pane, path.push(Half { split, second: true })))
                } by {
                    lemma_concat_has(a.placements(pa), b.placements(pb), (target, path));
                    if b.placements(pb).contains((target, path)) {
                        lemma_placed_pane_is_leaf(*b, pb, target, path);
                    }
                    lemma_concat_has(
                        a1.placements(pa),
                        b.placements(pb),
                        (target, path.push(Half { split, second: false })),
                    );
                    lemma_concat_has(
                        a1.placements(pa),
                        b.placements(pb),
                        (new_pane, path.push(Half { split, second: true })),
                    );
                }
            } else {
                law_split_changes_only_the_split_pane(*b, pb, target, new_pane, split);
                let b1 = b.split_spec(target, new_pane, split).0;
                assert(p1 == a.placements(pa) + b1.placements(pb));
                assert forall|p: PaneId, path: Seq<Half>|
                    p != target && p != new_pane implies (p1.contains((p, path)) <==> p0.contains(
                        (p, path),
                    )) by {
                    lemma_concat_has(a.placements(pa), b1.placements(pb), (p, path));
                    lemma_concat_has(a.placements(pa), b.placements(pb), (p, path));
                }
                assert forall|path: Seq<Half>| p0.contains((target, path)) implies {
                    &&& p1.contains((target, path.push(Half { split, second: false })))
                    &&& p1.contains((new_pane, path.push(Half { split, second: true })))
                } by {
                    lemma_concat_has(a.placements(pa), b.placements(pb), (target, path));
                    if a.placements(pa).contains((target, path)) {
                        lemma_placed_pane_is_leaf(*a, pa, target, path);
                    }
                    lemma_concat_has(
                        a.placements(pa),
                        b1.placements(pb),
                        (target, path.push(Half { split, second: false })),
                    );
                    lemma_concat_has(
                        a.placements(pa),
                        b1.placements(pb),
                        (new_pane, path.push(Half { split, second: true })),
                    );
                }
            }
        },
    }
}

/// Closing a pane right after splitting it off gives back the very same
/// tree: the pane's parent collapses into the pane that was split, and every
/// other branch keeps its split and its children.
pub proof fn law_close_after_split_restores_tree(
    tree: Node,
    focus: PaneId,
    new_pane: PaneId,
    split: Split,
)
    requires
        tree.leaves().contains(focus),
        !tree.leaves().contains(new_pane),
    ensures
        tree.split_spec(focus, new_pane, split).0.remove_spec(new_pane) == (tree, true),
    decreases tree,
{
    match tree {
        Node::Leaf(id) => {
            assert(tree.leaves() =~= seq![id]);
            let k = choose|k: int| 0 <= k < tree.leaves().len() && tree.leaves()[k] == focus;
            assert(k == 0);
            assert(id != new_pane) by {
                assert(tree.leaves()[0] == id);
            }
        },
        Node::Branch { split: s, a, b } => {
            lemma_contains_concat(a.leaves(), b.leaves(), focus);
            lemma_contains_concat(a.leaves(), b.leaves(), new_pane);
            lemma_split_found(*a, focus, new_pane, split);
            lemma_split_found(*b, focus, new_pane, split);
            lemma_split_unchanged(*a, focus, new_pane, split);
            if *a == Node::Leaf(new_pane) {
                assert(a.leaves()[0] == new_pane);
            }
            if *b == Node::Leaf(new_pane) {
                assert(b.leaves()[0] == new_pane);
            }
            if a.leaves().contains(focus) {
                law_close_after_split_restores_tree(*a, focus, new_pane, split);
            } else {
                lemma_remove_found_in(*a, new_pane);
                lemma_remove_unchanged(*a, new_pane);
                law_close_after_split_restores_tree(*b, focus, new_pane, split);
            }
        },
    }
}

/// Placements give every pane its own region: every chain of halvings
/// starts with `prefix`, and no pane's chain is a prefix of another pane's
/// (so no two panes share or nest in a region). The first child of a branch
/// takes the first half and the second child the second half.
pub proof fn law_placements_are_disjoint(tree: Node, prefix: Seq<Half>)
    ensures
        forall|i: int|
            0 <= i < tree.placements(prefix).len() ==> is_prefix_of(
                prefix,
                #[trigger] tree.placements(prefix)[i].1,
            ),
        forall|i: int, j: int|
            0 <= i < tree.placements(prefix).len() && 0 <= j < tree.placements(prefix).len() && i
                != j ==> !is_prefix_of(
                #[trigger] tree.placements(prefix)[i].1,
                #[trigger] tree.placements(prefix)[j].1,
            ),
        tree matches Node::Branch { split, .. } ==> forall|i: int|
            0 <= i < tree.placements(prefix).len() ==> {
                &&& prefix.len() < (#[trigger] tree.placements(prefix)[i]).1.len()
                &&& tree.placements(prefix)[i].1[prefix.len() as int].split == split
            },
    decreases tree,
{
    match tree {
        Node::Leaf(id) => {
            assert(prefix.subrange(0, prefix.len() as int) =~= prefix);
        },
        Node::Branch { split, a, b } => {
            let pa = prefix.push(Half { split, second: false });
            let pb = prefix.push(Half { split, second: true });
            law_placements_are_disjoint(*a, pa);
            law_placements_are_disjoint(*b, pb);
            let la = a.placements(pa);
            let lb = b.placements(pb);
            let l = tree.placements(prefix);
            assert(l == la + lb);
            let n = prefix.len() as int;
            assert forall|i: int| 0 <= i < l.len() implies is_prefix_of(prefix, #[trigger] l[i].1) by {
                let q = l[i].1;
                let pp = if i < la.len() { pa } else { pb };
                if i < la.len() {
                    assert(l[i] == la[i]);
                    assert(is_prefix_of(pa, la[i].1));
                } else {
                    assert(l[i] == lb[i - la.len()]);
                    assert(is_prefix_of(pb, lb[i - la.len()].1));
                }
                assert(q.subrange(0, pp.len() as int) == pp);
                assert(q.subrange(0, n) =~= pp.subrange(0, n));
                assert(pp.subrange(0, n) =~= prefix);
            }
            assert forall|i: int| 0 <= i < l.len() implies {
                &&& prefix.len() < (#[trigger] l[i]).1.len()
                &&& l[i].1[n].split == split
            } by {
                let q = l[i].1;
                let pp = if i < la.len() { pa } else { pb };
                if i < la.len() {
                    assert(l[i] == la[i]);
                    assert(is_prefix_of(pa, la[i].1));
                } else {
                    assert(l[i] == lb[i - la.len()]);
                    assert(is_prefix_of(pb, lb[i - la.len()].1));
                }
                assert(q.subrange(0, pp.len() as int)[n] == q[n]);
                assert(pp[n].split == split);
            }
            assert forall|i: int, j: int|
                0 <= i < l.len() && 0 <= j < l.len() && i != j implies !is_prefix_of(
                #[trigger] l[i].1,
                #[trigger] l[j].1,
            ) by {
                if i < la.len() && j < la.len() {
                    assert(l[i] == la[i] && l[j] == la[j]);
                } else if i >= la.len() && j >= la.len() {
                    assert(l[i] == lb[i - la.len()] && l[j] == lb[j - la.len()]);
                } else {
                    let (x, y) = if i < la.len() {
                        (la[i].1, lb[j - la.len()].1)
                    } else {
                        (lb[i - la.len()].1, la[j].1)
                    };
                    if i < la.len() {
                        assert(l[i] == la[i] && l[j] == lb[j - la.len()]);
                        assert(is_prefix_of(pa, x) && is_prefix_of(pb, y));
                    } else {
                        assert(l[i] == lb[i - la.len()] && l[j] == la[j]);
                        assert(is_prefix_of(pb, x) && is_prefix_of(pa, y));
                    }
                    assert(x.subrange(0, n + 1)[n] == x[n]);
                    assert(y.subrange(0, n + 1)[n] == y[n]);
                    assert(x[n] != y[n]);
                    if is_prefix_of(x, y) {
                        assert(y.subrange(0, x.len() as int)[n] == y[n]);
                    }
                }
            }
        },
    }
}

} // verus!
