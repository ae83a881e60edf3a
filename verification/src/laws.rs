//! Laws of the tree model and of pre-order traversal: the derived size of a
//! subtree is the sum of its leaves' sizes, an empty composite weighs
//! nothing, and a traversal reaches every node of the subtree exactly once,
//! each node strictly after its parent.

use vstd::prelude::*;
use crate::composite::{
    child_at, child_link_ok, descends, in_sub, in_sub_kids, lemma_in_sub_kids_witness,
    lemma_in_sub_parent, lemma_parent_descends, n_children, node_wf, rank_of,
    size_kids, size_spec, tree_wf, NodeModel, Tree,
};
use crate::visitor::{
    event_of, leaf_sum, preorder, preorder_kids, sat64, sat_inc, SizeVisitor, VisitEvent,
};

verus! {

/// Every member of a subtree stands at or below its root: its rank under the
/// acyclicity witness never exceeds the root's.
pub proof fn lemma_in_sub_range(m: Seq<NodeModel>, r: int, j: int)
    requires
        tree_wf(m),
        in_sub(m, r, j),
    ensures
        0 <= j < m.len(),
        rank_of(m, j) <= rank_of(m, r),
    decreases rank_of(m, r), 1int, 0int,
{
    if j != r {
        lemma_in_sub_kids_range(m, r, 0, j);
    }
}

pub proof fn lemma_in_sub_kids_range(m: Seq<NodeModel>, r: int, k: int, j: int)
    requires
        tree_wf(m),
        in_sub_kids(m, r, k, j),
    ensures
        0 <= j < m.len(),
        rank_of(m, j) < rank_of(m, r),
    decreases rank_of(m, r), 0int, n_children(m, r) - k,
{
    let c = child_at(m, r, k);
    if descends(m, r, c) && in_sub(m, c, j) {
        lemma_in_sub_range(m, c, j);
    } else {
        lemma_in_sub_kids_range(m, r, k + 1, j);
    }
}

/// Two subtrees that share a member are nested one inside the other.
pub proof fn lemma_sub_nested(m: Seq<NodeModel>, r1: int, r2: int, j: int)
    requires
        tree_wf(m),
        in_sub(m, r1, j),
        in_sub(m, r2, j),
        r1 != r2,
    ensures
        in_sub(m, r1, r2) || in_sub(m, r2, r1),
    decreases rank_of(m, r1) + rank_of(m, r2) - 2 * rank_of(m, j),
{
    lemma_in_sub_range(m, r1, j);
    lemma_in_sub_range(m, r2, j);
    if j == r1 {
        assert(in_sub(m, r2, r1));
    } else if j == r2 {
        assert(in_sub(m, r1, r2));
    } else {
        lemma_in_sub_parent(m, r1, j);
        lemma_in_sub_parent(m, r2, j);
        let p = m[j].parent()->0;
        lemma_parent_descends(m, j);
        assert(rank_of(m, j) < rank_of(m, p));
        lemma_in_sub_range(m, r1, p);
        lemma_in_sub_range(m, r2, p);
        if p == r1 {
            assert(in_sub(m, r2, r1));
        } else if p == r2 {
            assert(in_sub(m, r1, r2));
        } else {
            lemma_sub_nested(m, r1, r2, p);
        }
    }
}

/// The subtrees of two distinct children of one node share no member.
pub proof fn lemma_siblings_disjoint(m: Seq<NodeModel>, i: int, k1: int, k2: int, j: int)
    requires
        tree_wf(m),
        0 <= i < m.len(),
        0 <= k1 < k2 < n_children(m, i),
        in_sub(m, child_at(m, i, k1), j),
    ensures
        !in_sub(m, child_at(m, i, k2), j),
{
    let c1 = child_at(m, i, k1);
    let c2 = child_at(m, i, k2);
    assert(node_wf(m, i));
    assert(child_link_ok(m, i, k1));
    assert(child_link_ok(m, i, k2));
    assert(c1 != c2);
    if in_sub(m, c2, j) {
        lemma_sub_nested(m, c1, c2, j);
        lemma_parent_descends(m, c1);
        lemma_parent_descends(m, c2);
        if in_sub(m, c1, c2) {
            lemma_in_sub_parent(m, c1, c2);
            assert(m[c2].parent() == Some(i));
            assert(in_sub(m, c1, i));
            lemma_in_sub_range(m, c1, i);
            assert(rank_of(m, i) <= rank_of(m, c1) < rank_of(m, i));
            assert(false);
        } else {
            lemma_in_sub_parent(m, c2, c1);
            assert(m[c1].parent() == Some(i));
            assert(in_sub(m, c2, i));
            lemma_in_sub_range(m, c2, i);
            assert(rank_of(m, i) <= rank_of(m, c2) < rank_of(m, i));
            assert(false);
        }
    }
}

/// How often index `j` occurs in a visit log.
pub open spec fn idx_count(s: Seq<VisitEvent>, j: int) -> int
    decreases s.len(),
{
    if s.len() == 0 {
        0
    } else {
        idx_count(s.drop_last(), j) + (if s.last().idx() == j {
            1int
        } else {
            0int
        })
    }
}

pub proof fn lemma_idx_count_concat(a: Seq<VisitEvent>, b: Seq<VisitEvent>, j: int)
    ensures
        idx_count(a + b, j) == idx_count(a, j) + idx_count(b, j),
    decreases b.len(),
{
    if b.len() == 0 {
        assert(a + b =~= a);
    } else {
        assert((a + b).drop_last() =~= a + b.drop_last());
        assert((a + b).last() == b.last());
        lemma_idx_count_concat(a, b.drop_last(), j);
    }
}

/// Pre-order traversal visits every node of the subtree exactly once, and
/// visits nothing outside the subtree.
pub proof fn lemma_preorder_once(m: Seq<NodeModel>, i: int, d: nat, j: int)
    requires
        tree_wf(m),
        0 <= i < m.len(),
    ensures
        idx_count(preorder(m, i, d), j) == if in_sub(m, i, j) {
            1int
        } else {
            0int
        },
    decreases rank_of(m, i), 1int, 0int,
{
    let ev = seq![event_of(m[i], i, d)];
    let pk = preorder_kids(m, i, 0, sat_inc(d));
    assert(preorder(m, i, d) == ev + pk);
    lemma_idx_count_concat(ev, pk, j);
    assert(ev.drop_last() =~= Seq::<VisitEvent>::empty());
    assert(idx_count(Seq::<VisitEvent>::empty(), j) == 0);
    assert(ev.last().idx() == i);
    assert(idx_count(ev, j) == if j == i {
        1int
    } else {
        0int
    });
    lemma_preorder_kids_once(m, i, 0, sat_inc(d), j);
    if j == i && in_sub_kids(m, i, 0, i) {
        lemma_in_sub_kids_range(m, i, 0, i);
        assert(false);
    }
}

pub proof fn lemma_preorder_kids_once(m: Seq<NodeModel>, i: int, k: int, d: nat, j: int)
    requires
        tree_wf(m),
        0 <= i < m.len(),
    ensures
        idx_count(preorder_kids(m, i, k, d), j) == if in_sub_kids(m, i, k, j) {
            1int
        } else {
            0int
        },
    decreases rank_of(m, i), 0int, n_children(m, i) - k,
{
    if 0 <= k < n_children(m, i) {
        assert(node_wf(m, i));
        assert(child_link_ok(m, i, k));
        let c = child_at(m, i, k);
        lemma_parent_descends(m, c);
        assert(descends(m, i, c));
        let pc = preorder(m, c, d);
        let rest = preorder_kids(m, i, k + 1, d);
        assert(preorder_kids(m, i, k, d) == pc + rest);
        lemma_idx_count_concat(pc, rest, j);
        lemma_preorder_once(m, c, d, j);
        lemma_preorder_kids_once(m, i, k + 1, d, j);
        if in_sub(m, c, j) && in_sub_kids(m, i, k + 1, j) {
            lemma_in_sub_kids_witness(m, i, k + 1, j);
            let k2 = choose|k2: int|
                k + 1 <= k2 < n_children(m, i) && descends(m, i, #[trigger] child_at(m, i, k2))
                    && in_sub(m, child_at(m, i, k2), j);
            lemma_siblings_disjoint(m, i, k, k2, j);
            assert(false);
        }
    }
}

/// Pre-order traversal visits the root of the subtree first.
pub proof fn lemma_preorder_root_first(m: Seq<NodeModel>, i: int, d: nat)
    requires
        0 <= i < m.len(),
    ensures
        preorder(m, i, d).len() >= 1,
        preorder(m, i, d)[0] == event_of(m[i], i, d),
{
}

/// Pre-order traversal visits a node strictly before any of its descendants:
/// every visited node other than the root appears in the log strictly after
/// its own parent.
pub proof fn lemma_preorder_parent_first(m: Seq<NodeModel>, i: int, d: nat, b: int)
    requires
        tree_wf(m),
        0 <= i < m.len(),
        0 < b < preorder(m, i, d).len(),
    ensures
        ({
            let s = preorder(m, i, d);
            let j = s[b].idx();
            &&& m[j].parent() is Some
            &&& exists|a: int| 0 <= a < b && #[trigger] s[a].idx() == m[j].parent()->0
        }),
    decreases rank_of(m, i), 1int, 0int,
{
    let s = preorder(m, i, d);
    let ev = seq![event_of(m[i], i, d)];
    let pk = preorder_kids(m, i, 0, sat_inc(d));
    assert(s == ev + pk);
    assert(s[b] == pk[b - 1]);
    lemma_preorder_kids_parent_first(m, i, 0, sat_inc(d), b - 1);
    let j = pk[b - 1].idx();
    if m[j].parent()->0 == i {
        assert(s[0].idx() == i);
    } else {
        let a0 = choose|a: int|
            0 <= a < b - 1 && #[trigger] pk[a].idx() == m[j].parent()->0;
        assert(s[a0 + 1] == pk[a0]);
        assert(s[a0 + 1].idx() == m[j].parent()->0);
    }
}

pub proof fn lemma_preorder_kids_parent_first(m: Seq<NodeModel>, i: int, k: int, d: nat, b: int)
    requires
        tree_wf(m),
        0 <= i < m.len(),
        0 <= b < preorder_kids(m, i, k, d).len(),
    ensures
        ({
            let s = preorder_kids(m, i, k, d);
            let j = s[b].idx();
            &&& m[j].parent() is Some
            &&& (m[j].parent()->0 == i || exists|a: int|
                0 <= a < b && #[trigger] s[a].idx() == m[j].parent()->0)
        }),
    decreases rank_of(m, i), 0int, n_children(m, i) - k,
{
    let s = preorder_kids(m, i, k, d);
    assert(0 <= k < n_children(m, i));
    assert(node_wf(m, i));
    assert(child_link_ok(m, i, k));
    let c = child_at(m, i, k);
    lemma_parent_descends(m, c);
    assert(descends(m, i, c));
    let pc = preorder(m, c, d);
    let rest = preorder_kids(m, i, k + 1, d);
    assert(s == pc + rest);
    if b < pc.len() {
        assert(s[b] == pc[b]);
        if b == 0 {
            assert(pc[0] == event_of(m[c], c, d));
            assert(s[0].idx() == c);
            assert(m[c].parent() == Some(i));
        } else {
            lemma_preorder_parent_first(m, c, d, b);
            let j = pc[b].idx();
            let a0 = choose|a: int|
                0 <= a < b && #[trigger] pc[a].idx() == m[j].parent()->0;
            assert(s[a0] == pc[a0]);
            assert(s[a0].idx() == m[j].parent()->0);
        }
    } else {
        lemma_preorder_kids_parent_first(m, i, k + 1, d, b - pc.len());
        let j = rest[b - pc.len()].idx();
        assert(s[b] == rest[b - pc.len()]);
        if m[j].parent()->0 != i {
            let a0 = choose|a: int|
                0 <= a < b - pc.len() && #[trigger] rest[a].idx() == m[j].parent()->0;
            assert(s[a0 + pc.len()] == rest[a0]);
            assert(s[a0 + pc.len()].idx() == m[j].parent()->0);
        }
    }
}

/// A composite with no children has size zero.
pub proof fn lemma_empty_composite_size(m: Seq<NodeModel>, i: int)
    requires
        0 <= i < m.len(),
        m[i].is_composite(),
        m[i].children().len() == 0,
    ensures
        size_spec(m, i) == 0,
{
}

pub proof fn lemma_leaf_sum_concat(a: Seq<VisitEvent>, b: Seq<VisitEvent>)
    ensures
        leaf_sum(a + b) == leaf_sum(a) + leaf_sum(b),
    decreases b.len(),
{
    if b.len() == 0 {
        assert(a + b =~= a);
    } else {
        assert((a + b).drop_last() =~= a + b.drop_last());
        assert((a + b).last() == b.last());
        lemma_leaf_sum_concat(a, b.drop_last());
    }
}

/// The size of a subtree is the sum of the sizes of the leaves reachable
/// from its root: what `get_size` returns equals the leaf total of a
/// pre-order walk.
pub proof fn lemma_size_is_leaf_sum(m: Seq<NodeModel>, i: int, d: nat)
    requires
        tree_wf(m),
        0 <= i < m.len(),
    ensures
        size_spec(m, i) == leaf_sum(preorder(m, i, d)),
    decreases rank_of(m, i), 1int, 0int,
{
    let ev = seq![event_of(m[i], i, d)];
    let pk = preorder_kids(m, i, 0, sat_inc(d));
    assert(preorder(m, i, d) == ev + pk);
    lemma_leaf_sum_concat(ev, pk);
    assert(ev.drop_last() =~= Seq::<VisitEvent>::empty());
    assert(leaf_sum(Seq::<VisitEvent>::empty()) == 0);
    match m[i] {
        NodeModel::Leaf { size, .. } => {
            assert(pk == Seq::<VisitEvent>::empty());
            assert(leaf_sum(ev) == size as int);
        },
        NodeModel::Composite { .. } => {
            assert(leaf_sum(ev) == 0);
            lemma_size_kids_is_leaf_sum(m, i, 0, sat_inc(d));
        },
    }
}

pub proof fn lemma_size_kids_is_leaf_sum(m: Seq<NodeModel>, i: int, k: int, d: nat)
    requires
        tree_wf(m),
        0 <= i < m.len(),
    ensures
        size_kids(m, i, k) == leaf_sum(preorder_kids(m, i, k, d)),
    decreases rank_of(m, i), 0int, n_children(m, i) - k,
{
    if 0 <= k < n_children(m, i) {
        assert(node_wf(m, i));
        assert(child_link_ok(m, i, k));
        let c = child_at(m, i, k);
        lemma_parent_descends(m, c);
        assert(descends(m, i, c));
        lemma_size_is_leaf_sum(m, c, d);
        lemma_size_kids_is_leaf_sum(m, i, k + 1, d);
        lemma_leaf_sum_concat(preorder(m, c, d), preorder_kids(m, i, k + 1, d));
    }
}

impl Tree {
    /// Runs a fresh size-accumulating visitor over the subtree rooted at
    /// `root`: the reported total equals the subtree's derived size
    /// (saturated at the top of `u64`), independent of how the visitor was
    /// dispatched.
    pub fn total_size(&self, root: usize) -> (r: u64)
        requires
            self.wf(),
            root < self@.len(),
        ensures
            r as int == sat64(size_spec(self@, root as int)),
    {
        let mut v = SizeVisitor::new();
        self.traverse(root, &mut v);
        proof {
            lemma_size_is_leaf_sum(self@, root as int, 0);
            assert(Seq::<VisitEvent>::empty() + preorder(self@, root as int, 0) =~= preorder(
                self@,
                root as int,
                0,
            ));
        }
        v.total()
    }
}

} // verus!


