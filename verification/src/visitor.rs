//! Visitor dispatch: an externally supplied operation is applied to every
//! node of a tree, once, depth-first and pre-order, chosen per node kind by
//! double dispatch. A visitor holds no tree state; it may accumulate its own
//! (a running total, a report) across one traversal.

use vstd::prelude::*;
use crate::composite::{
    child_at, child_link_ok, descends, lemma_parent_descends, n_children, node_wf, rank_of,
    Composite, Leaf, Node, NodeModel, Tree,
};

verus! {

/// One visit, as recorded in a visitor's log: which node was handed over
/// (by arena index), what it showed, and how deep below the root it stands.
pub enum VisitEvent {
    Leaf { idx: int, name: Seq<char>, size: u64, depth: nat },
    Composite { idx: int, name: Seq<char>, depth: nat },
}

impl VisitEvent {
    pub open spec fn idx(self) -> int {
        match self {
            VisitEvent::Leaf { idx, .. } => idx,
            VisitEvent::Composite { idx, .. } => idx,
        }
    }
}

/// The event that visiting node `n`, standing at arena index `i` and depth
/// `d`, records.
pub open spec fn event_of(n: NodeModel, i: int, d: nat) -> VisitEvent {
    match n {
        NodeModel::Leaf { name, size, .. } => VisitEvent::Leaf { idx: i, name, size, depth: d },
        NodeModel::Composite { name, .. } => VisitEvent::Composite { idx: i, name, depth: d },
    }
}

/// One level deeper, held at the top of `usize`: a bound that no arena can
/// reach, since a node at that depth would need more ancestors than a vector
/// can hold.
pub open spec fn sat_inc(d: nat) -> nat {
    if d < usize::MAX as nat {
        d + 1
    } else {
        d
    }
}

/// The pre-order event sequence of the subtree rooted at `i`: the node
/// itself, then each child's subtree, in insertion order.
pub open spec fn preorder(m: Seq<NodeModel>, i: int, d: nat) -> Seq<VisitEvent>
    decreases rank_of(m, i), 1int, 0int,
{
    if 0 <= i < m.len() {
        seq![event_of(m[i], i, d)] + preorder_kids(m, i, 0, sat_inc(d))
    } else {
        Seq::empty()
    }
}

/// The pre-order event sequences of the subtrees of children `k..` of node
/// `i`, concatenated.
pub open spec fn preorder_kids(m: Seq<NodeModel>, i: int, k: int, d: nat) -> Seq<VisitEvent>
    decreases rank_of(m, i), 0int, n_children(m, i) - k,
{
    if 0 <= i < m.len() && 0 <= k < n_children(m, i) {
        let c = child_at(m, i, k);
        (if descends(m, i, c) {
            preorder(m, c, d)
        } else {
            Seq::empty()
        }) + preorder_kids(m, i, k + 1, d)
    } else {
        Seq::empty()
    }
}

/// An operation applied to nodes during a traversal, one method per node
/// kind. The ghost log `visits` records every visit in order; each call
/// appends exactly one event to it.
pub trait Visitor {
    /// The log of every visit this visitor has received, in order.
    spec fn visits(&self) -> Seq<VisitEvent>;

    /// Called once for each leaf the traversal reaches.
    fn visit_leaf(&mut self, idx: usize, leaf: &Leaf, depth: usize)
        ensures
            final(self).visits() == old(self).visits().push(
                event_of(leaf@, idx as int, depth as nat),
            ),
    ;

    /// Called once for each composite the traversal reaches.
    fn visit_composite(&mut self, idx: usize, comp: &Composite, depth: usize)
        ensures
            final(self).visits() == old(self).visits().push(
                event_of(comp@, idx as int, depth as nat),
            ),
    ;
}

impl Node {
    /// Double dispatch: hands this node, by reference, to the visitor method
    /// matching its kind, without the node performing a type test on the
    /// visitor nor the visitor on the node.
    pub fn accept<V: Visitor>(&self, idx: usize, depth: usize, v: &mut V)
        ensures
            final(v).visits() == old(v).visits().push(event_of(self@, idx as int, depth as nat)),
    {
        match self {
            Node::Leaf(l) => v.visit_leaf(idx, l, depth),
            Node::Composite(c) => v.visit_composite(idx, c, depth),
        }
    }
}

impl Tree {
    /// Applies the visitor to the subtree rooted at `root`: depth-first,
    /// pre-order (a node strictly before its descendants), children in
    /// insertion order — the visitor receives exactly the pre-order event
    /// sequence of the subtree.
    pub fn traverse<V: Visitor>(&self, root: usize, v: &mut V)
        requires
            self.wf(),
            root < self@.len(),
        ensures
            final(v).visits() == old(v).visits() + preorder(self@, root as int, 0),
    {
        self.traverse_at(root, 0, v);
    }

    fn traverse_at<V: Visitor>(&self, i: usize, depth: usize, v: &mut V)
        requires
            self.wf(),
            i < self@.len(),
        ensures
            final(v).visits() == old(v).visits() + preorder(self@, i as int, depth as nat),
        decreases rank_of(self@, i as int),
    {
        proof {
            assert(self@[i as int] == self.nodes@[i as int]@);
        }
        let ghost gi = i as int;
        let ghost gd = depth as nat;
        self.nodes[i].accept(i, depth, v);
        match &self.nodes[i] {
            Node::Leaf(_) => {
                proof {
                    assert(preorder_kids(self@, gi, 0, sat_inc(gd)) == Seq::<VisitEvent>::empty());
                    assert(v.visits() =~= old(v).visits() + preorder(self@, gi, gd));
                }
            },
            Node::Composite(c) => {
                let n = c.children.len();
                let mut k: usize = 0;
                while k < n
                    invariant
                        self.wf(),
                        gi == i as int,
                        0 <= gi < self@.len(),
                        gd == depth as nat,
                        self@[gi] == self.nodes@[gi]@,
                        self.nodes@[gi] matches Node::Composite(cc) && cc == c,
                        n == n_children(self@, gi),
                        0 <= k <= n,
                        v.visits() + preorder_kids(self@, gi, k as int, sat_inc(gd)) == old(
                            v,
                        ).visits() + preorder(self@, gi, gd),
                    decreases n - k,
                {
                    proof {
                        assert(node_wf(self@, gi));
                        assert(child_link_ok(self@, gi, k as int));
                        assert(c.children@.map_values(|u: usize| u as int)[k as int] == child_at(
                            self@,
                            gi,
                            k as int,
                        ));
                    }
                    let ch = c.children[k];
                    proof {
                        assert(ch as int == child_at(self@, gi, k as int));
                        lemma_parent_descends(self@, ch as int);
                        assert(descends(self@, gi, ch as int));
                    }
                    let dnext = if depth < usize::MAX {
                        depth + 1
                    } else {
                        depth
                    };
                    proof {
                        assert(dnext as nat == sat_inc(gd));
                    }
                    let ghost before = v.visits();
                    self.traverse_at(ch, dnext, v);
                    proof {
                        assert(preorder_kids(self@, gi, k as int, sat_inc(gd)) == preorder(
                            self@,
                            ch as int,
                            sat_inc(gd),
                        ) + preorder_kids(self@, gi, k as int + 1, sat_inc(gd)));
                        assert(v.visits() + preorder_kids(self@, gi, k as int + 1, sat_inc(gd))
                            =~= before + preorder_kids(self@, gi, k as int, sat_inc(gd)));
                    }
                    k = k + 1;
                }
                proof {
                    assert(preorder_kids(self@, gi, n as int, sat_inc(gd))
                        == Seq::<VisitEvent>::empty());
                    assert(v.visits() =~= old(v).visits() + preorder(self@, gi, gd));
                }
            },
        }
    }
}

/// `n`, saturated at the top of `u64`.
pub open spec fn sat64(n: int) -> int {
    if n > u64::MAX as int {
        u64::MAX as int
    } else {
        n
    }
}

/// The sum of the sizes carried by the leaf events of a visit log.
pub open spec fn leaf_sum(s: Seq<VisitEvent>) -> int
    decreases s.len(),
{
    if s.len() == 0 {
        0
    } else {
        leaf_sum(s.drop_last()) + (match s.last() {
            VisitEvent::Leaf { size, .. } => size as int,
            VisitEvent::Composite { .. } => 0,
        })
    }
}

/// A visitor that accumulates the total size of the leaves it visits,
/// saturating at the top of `u64`.
pub struct SizeVisitor {
    total: u64,
    visited: Ghost<Seq<VisitEvent>>,
}

impl SizeVisitor {
    #[verifier::type_invariant]
    spec fn inv(self) -> bool {
        self.total as int == sat64(leaf_sum(self.visited@))
    }

    /// A fresh accumulator: nothing visited, total zero.
    pub fn new() -> (v: SizeVisitor)
        ensures
            v.visits() == Seq::<VisitEvent>::empty(),
    {
        SizeVisitor { total: 0, visited: Ghost(Seq::empty()) }
    }

    /// The running total: the sum of the sizes of all leaves visited so far,
    /// saturated at the top of `u64`.
    pub fn total(&self) -> (r: u64)
        ensures
            r as int == sat64(leaf_sum(self.visits())),
    {
        proof {
            use_type_invariant(self);
        }
        self.total
    }
}

impl Visitor for SizeVisitor {
    closed spec fn visits(&self) -> Seq<VisitEvent> {
        self.visited@
    }

    fn visit_leaf(&mut self, idx: usize, leaf: &Leaf, depth: usize) {
        proof {
            use_type_invariant(&*self);
        }
        let ghost ev = event_of(leaf@, idx as int, depth as nat);
        let t = if self.total <= u64::MAX - leaf.size {
            self.total + leaf.size
        } else {
            u64::MAX
        };
        proof {
            assert(self.visited@.push(ev).drop_last() =~= self.visited@);
            assert(self.visited@.push(ev).last() == ev);
        }
        *self = SizeVisitor { total: t, visited: Ghost(self.visited@.push(ev)) };
    }

    fn visit_composite(&mut self, idx: usize, comp: &Composite, depth: usize) {
        proof {
            use_type_invariant(&*self);
        }
        let ghost ev = event_of(comp@, idx as int, depth as nat);
        proof {
            assert(self.visited@.push(ev).drop_last() =~= self.visited@);
            assert(self.visited@.push(ev).last() == ev);
        }
        *self = SizeVisitor { total: self.total, visited: Ghost(self.visited@.push(ev)) };
    }
}

/// One line of a report: which node was seen, its name, its intrinsic size
/// (a leaf's; a composite shows none), and its depth below the root.
pub struct ReportEntry {
    pub idx: usize,
    pub name: String,
    pub size: Option<u64>,
    pub depth: usize,
}

impl ReportEntry {
    /// The visit this entry renders.
    pub open spec fn event(self) -> VisitEvent {
        match self.size {
            Some(s) => VisitEvent::Leaf {
                idx: self.idx as int,
                name: self.name@,
                size: s,
                depth: self.depth as nat,
            },
            None => VisitEvent::Composite {
                idx: self.idx as int,
                name: self.name@,
                depth: self.depth as nat,
            },
        }
    }
}

/// A visitor that renders each visited node as one report entry, in visit
/// order: its entries are exactly its log of visits.
pub struct ReportVisitor {
    pub entries: Vec<ReportEntry>,
}

impl ReportVisitor {
    /// An empty report.
    pub fn new() -> (v: ReportVisitor)
        ensures
            v.visits() == Seq::<VisitEvent>::empty(),
    {
        let v = ReportVisitor { entries: Vec::new() };
        proof {
            assert(v.visits() =~= Seq::<VisitEvent>::empty());
        }
        v
    }
}

impl Visitor for ReportVisitor {
    open spec fn visits(&self) -> Seq<VisitEvent> {
        self.entries@.map_values(|e: ReportEntry| e.event())
    }

    fn visit_leaf(&mut self, idx: usize, leaf: &Leaf, depth: usize) {
        let e = ReportEntry { idx, name: leaf.name.clone(), size: Some(leaf.size), depth };
        let ghost ev = event_of(leaf@, idx as int, depth as nat);
        proof {
            assert(e.event() == ev);
        }
        self.entries.push(e);
        proof {
            assert(self.visits() =~= old(self).visits().push(ev));
        }
    }

    fn visit_composite(&mut self, idx: usize, comp: &Composite, depth: usize) {
        let e = ReportEntry { idx, name: comp.name.clone(), size: None, depth };
        let ghost ev = event_of(comp@, idx as int, depth as nat);
        proof {
            assert(e.event() == ev);
        }
        self.entries.push(e);
        proof {
            assert(self.visits() =~= old(self).visits().push(ev));
        }
    }
}

} // verus!
