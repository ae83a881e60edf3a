//! The tree model: leaf and composite nodes held in an arena, children
//! referenced by index, with a derived (never cached) size.

use vstd::prelude::*;

verus! {

/// A node that cannot hold children; its size is intrinsic.
pub struct Leaf {
    pub name: String,
    pub size: u64,
    /// Informational back-reference to the owning composite, if any.
    pub parent: Option<usize>,
}

/// A node that owns an ordered sequence of children; its size is derived.
pub struct Composite {
    pub name: String,
    /// Arena indices of the direct children, in insertion order.
    pub children: Vec<usize>,
    /// Informational back-reference to the owning composite, if any.
    pub parent: Option<usize>,
}

/// A tree node: either a leaf or a composite.
pub enum Node {
    Leaf(Leaf),
    Composite(Composite),
}

/// The mathematical model of a node.
pub enum NodeModel {
    Leaf { name: Seq<char>, size: u64, parent: Option<int> },
    Composite { name: Seq<char>, children: Seq<int>, parent: Option<int> },
}

/// Errors raised by mutating calls; they are surfaced synchronously and the
/// tree is left unchanged.
#[derive(Clone, Copy, Debug, PartialEq, Eq, Structural)]
pub enum TreeError {
    /// The mutating call's operands do not admit it: the node addressed as a
    /// parent cannot hold children, or (widening that kind to the other
    /// misuse of `add_child`) the node offered as a child is already owned
    /// by a parent.
    InvalidOperation,
    /// Attaching the child would make a node its own descendant.
    CycleDetected,
}

pub open spec fn opt_int(o: Option<usize>) -> Option<int> {
    match o {
        Some(p) => Some(p as int),
        None => None,
    }
}

impl NodeModel {
    pub open spec fn name(self) -> Seq<char> {
        match self {
            NodeModel::Leaf { name, .. } => name,
            NodeModel::Composite { name, .. } => name,
        }
    }

    pub open spec fn parent(self) -> Option<int> {
        match self {
            NodeModel::Leaf { parent, .. } => parent,
            NodeModel::Composite { parent, .. } => parent,
        }
    }

    pub open spec fn is_composite(self) -> bool {
        match self {
            NodeModel::Leaf { .. } => false,
            NodeModel::Composite { .. } => true,
        }
    }

    /// A leaf has no children, so its child sequence is empty.
    pub open spec fn children(self) -> Seq<int> {
        match self {
            NodeModel::Leaf { .. } => Seq::empty(),
            NodeModel::Composite { children, .. } => children,
        }
    }

    /// The same node with one more child appended (identity on leaves).
    pub open spec fn with_child(self, c: int) -> NodeModel {
        match self {
            NodeModel::Leaf { .. } => self,
            NodeModel::Composite { name, children, parent } => NodeModel::Composite {
                name,
                children: children.push(c),
                parent,
            },
        }
    }

    /// The same node with its child sequence replaced (identity on leaves).
    pub open spec fn with_children(self, cs: Seq<int>) -> NodeModel {
        match self {
            NodeModel::Leaf { .. } => self,
            NodeModel::Composite { name, parent, .. } => NodeModel::Composite {
                name,
                children: cs,
                parent,
            },
        }
    }

    /// The same node with its parent back-reference replaced.
    pub open spec fn with_parent(self, p: Option<int>) -> NodeModel {
        match self {
            NodeModel::Leaf { name, size, .. } => NodeModel::Leaf { name, size, parent: p },
            NodeModel::Composite { name, children, .. } => NodeModel::Composite {
                name,
                children,
                parent: p,
            },
        }
    }
}

impl View for Leaf {
    type V = NodeModel;

    open spec fn view(&self) -> NodeModel {
        NodeModel::Leaf { name: self.name@, size: self.size, parent: opt_int(self.parent) }
    }
}

impl View for Composite {
    type V = NodeModel;

    open spec fn view(&self) -> NodeModel {
        NodeModel::Composite {
            name: self.name@,
            children: self.children@.map_values(|c: usize| c as int),
            parent: opt_int(self.parent),
        }
    }
}

impl View for Node {
    type V = NodeModel;

    open spec fn view(&self) -> NodeModel {
        match self {
            Node::Leaf(l) => l@,
            Node::Composite(c) => c@,
        }
    }
}

/// The arena: it owns every node; a node is attached into at most one parent.
pub struct Tree {
    pub nodes: Vec<Node>,
}

impl View for Tree {
    type V = Seq<NodeModel>;

    open spec fn view(&self) -> Seq<NodeModel> {
        self.nodes@.map_values(|n: Node| n@)
    }
}

/// The arena index of the `k`-th child of node `i`.
pub open spec fn child_at(m: Seq<NodeModel>, i: int, k: int) -> int {
    m[i].children()[k]
}

pub open spec fn n_children(m: Seq<NodeModel>, i: int) -> int {
    m[i].children().len() as int
}

/// The `k`-th child of node `i` is a valid arena index whose back-reference
/// names `i`.
pub open spec fn child_link_ok(m: Seq<NodeModel>, i: int, k: int) -> bool {
    let c = child_at(m, i, k);
    &&& 0 <= c < m.len()
    &&& m[c].parent() == Some(i)
}

/// A node's parent back-reference names a composite whose child sequence
/// contains the node.
pub open spec fn parent_link_ok(m: Seq<NodeModel>, i: int) -> bool {
    match m[i].parent() {
        Some(p) => 0 <= p < m.len() && m[p].is_composite() && m[p].children().contains(i),
        None => true,
    }
}

pub open spec fn node_wf(m: Seq<NodeModel>, i: int) -> bool {
    &&& forall|k: int| 0 <= k < n_children(m, i) ==> #[trigger] child_link_ok(m, i, k)
    &&& forall|k1: int, k2: int|
        0 <= k1 < k2 < n_children(m, i) ==> child_at(m, i, k1) != child_at(m, i, k2)
    &&& parent_link_ok(m, i)
}

/// A ranking of the arena that witnesses acyclicity: every node's rank is
/// non-negative and strictly below its parent's, so no node can be its own
/// descendant.
pub open spec fn rank_ok(m: Seq<NodeModel>, r: Seq<int>) -> bool {
    &&& r.len() == m.len()
    &&& forall|j: int| 0 <= j < m.len() ==> 0 <= #[trigger] r[j]
    &&& forall|j: int|
        0 <= j < m.len() && (#[trigger] m[j].parent()) is Some ==> {
            let q = m[j].parent()->0;
            &&& 0 <= q < m.len()
            &&& r[j] < r[q]
        }
}

/// Some acyclicity witness for the arena (meaningful on well-formed arenas).
pub open spec fn ranks_of(m: Seq<NodeModel>) -> Seq<int> {
    choose|r: Seq<int>| rank_ok(m, r)
}

pub open spec fn rank_of(m: Seq<NodeModel>, j: int) -> int {
    ranks_of(m)[j]
}

/// Recursion from `i` into `c` is admissible: `c` is a valid index of
/// strictly smaller rank. On a well-formed arena this holds of every child.
pub open spec fn descends(m: Seq<NodeModel>, i: int, c: int) -> bool {
    &&& 0 <= c < m.len()
    &&& 0 <= rank_of(m, c) < rank_of(m, i)
}

/// Well-formedness of the whole arena: every node owns each child at most
/// once, child lists and back-references agree both ways, and a ranking
/// witnesses that the child relation is acyclic.
pub open spec fn tree_wf(m: Seq<NodeModel>) -> bool {
    &&& forall|i: int| 0 <= i < m.len() ==> #[trigger] node_wf(m, i)
    &&& exists|r: Seq<int>| rank_ok(m, r)
}

/// On a well-formed arena the chosen ranking is a real witness.
pub proof fn lemma_wf_ranks(m: Seq<NodeModel>)
    requires
        tree_wf(m),
    ensures
        rank_ok(m, ranks_of(m)),
{
    assert(exists|r: Seq<int>| rank_ok(m, r));
}

/// An attached node descends from its parent: ranks strictly decrease along
/// every child link, which is what grounds all recursion over subtrees.
pub proof fn lemma_parent_descends(m: Seq<NodeModel>, c: int)
    requires
        tree_wf(m),
        0 <= c < m.len(),
        m[c].parent() is Some,
    ensures
        ({
            let p = m[c].parent()->0;
            0 <= p < m.len() && descends(m, p, c) && p != c
        }),
{
    lemma_wf_ranks(m);
}

/// No node is its own parent.
pub proof fn lemma_parent_not_self(m: Seq<NodeModel>, c: int)
    requires
        tree_wf(m),
        0 <= c < m.len(),
    ensures
        m[c].parent() != Some(c),
{
    lemma_wf_ranks(m);
}

/// Whether node `j` belongs to the subtree rooted at `r`.
pub open spec fn in_sub(m: Seq<NodeModel>, r: int, j: int) -> bool
    decreases rank_of(m, r), 1int, 0int,
{
    if 0 <= r < m.len() {
        j == r || in_sub_kids(m, r, 0, j)
    } else {
        false
    }
}

/// Whether node `j` belongs to the subtree of one of children `k..` of `r`.
pub open spec fn in_sub_kids(m: Seq<NodeModel>, r: int, k: int, j: int) -> bool
    decreases rank_of(m, r), 0int, n_children(m, r) - k,
{
    if 0 <= r < m.len() && 0 <= k < n_children(m, r) {
        let c = child_at(m, r, k);
        (if descends(m, r, c) {
            in_sub(m, c, j)
        } else {
            false
        }) || in_sub_kids(m, r, k + 1, j)
    } else {
        false
    }
}

/// Every node belongs to its own subtree.
pub proof fn lemma_in_sub_refl(m: Seq<NodeModel>, j: int)
    requires
        0 <= j < m.len(),
    ensures
        in_sub(m, j, j),
{
}

/// Membership in a child's subtree gives membership in the suffix of
/// children starting anywhere at or before that child.
pub proof fn lemma_in_sub_kids_intro(m: Seq<NodeModel>, i: int, k0: int, k: int, j: int)
    requires
        0 <= i < m.len(),
        0 <= k0 <= k < n_children(m, i),
        descends(m, i, child_at(m, i, k)),
        in_sub(m, child_at(m, i, k), j),
    ensures
        in_sub_kids(m, i, k0, j),
    decreases k - k0,
{
    if k0 < k {
        lemma_in_sub_kids_intro(m, i, k0 + 1, k, j);
    }
}

/// A member of the subtree of one of children `k..` lies in the subtree of
/// one of those children in particular.
pub proof fn lemma_in_sub_kids_witness(m: Seq<NodeModel>, i: int, k: int, j: int)
    requires
        in_sub_kids(m, i, k, j),
    ensures
        exists|k2: int|
            k <= k2 < n_children(m, i) && descends(m, i, #[trigger] child_at(m, i, k2))
                && in_sub(m, child_at(m, i, k2), j),
    decreases n_children(m, i) - k,
{
    let c = child_at(m, i, k);
    if descends(m, i, c) && in_sub(m, c, j) {
        assert(descends(m, i, child_at(m, i, k)) && in_sub(m, child_at(m, i, k), j));
    } else {
        lemma_in_sub_kids_witness(m, i, k + 1, j);
    }
}

/// A proper member of a subtree has a parent, and that parent belongs to the
/// same subtree.
pub proof fn lemma_in_sub_parent(m: Seq<NodeModel>, r: int, j: int)
    requires
        tree_wf(m),
        in_sub(m, r, j),
        j != r,
    ensures
        m[j].parent() is Some,
        in_sub(m, r, m[j].parent()->0),
    decreases rank_of(m, r), 1int, 0int,
{
    lemma_in_sub_kids_parent(m, r, 0, j);
}

pub proof fn lemma_in_sub_kids_parent(m: Seq<NodeModel>, r: int, k: int, j: int)
    requires
        tree_wf(m),
        in_sub_kids(m, r, k, j),
    ensures
        m[j].parent() is Some,
        m[j].parent()->0 == r || in_sub_kids(m, r, k, m[j].parent()->0),
    decreases rank_of(m, r), 0int, n_children(m, r) - k,
{
    let c = child_at(m, r, k);
    assert(node_wf(m, r));
    if descends(m, r, c) && in_sub(m, c, j) {
        assert(child_link_ok(m, r, k));
        if j == c {
            assert(m[c].parent() == Some(r));
        } else {
            lemma_in_sub_parent(m, c, j);
            let p = m[j].parent()->0;
            assert(in_sub(m, c, p));
            assert(in_sub_kids(m, r, k, p));
        }
    } else {
        lemma_in_sub_kids_parent(m, r, k + 1, j);
    }
}

/// Subtree membership is transitive.
pub proof fn lemma_in_sub_trans(m: Seq<NodeModel>, a: int, b: int, j: int)
    requires
        tree_wf(m),
        in_sub(m, a, b),
        in_sub(m, b, j),
    ensures
        in_sub(m, a, j),
    decreases rank_of(m, a),
{
    if b != a {
        lemma_in_sub_kids_witness(m, a, 0, b);
        let k2 = choose|k2: int|
            0 <= k2 < n_children(m, a) && descends(m, a, #[trigger] child_at(m, a, k2))
                && in_sub(m, child_at(m, a, k2), b);
        let c = child_at(m, a, k2);
        lemma_in_sub_trans(m, c, b, j);
        lemma_in_sub_kids_intro(m, a, 0, k2, j);
    }
}

/// The derived size of node `i`: a leaf's intrinsic size, or the sum of the
/// direct children's sizes, recursively.
pub open spec fn size_spec(m: Seq<NodeModel>, i: int) -> int
    decreases rank_of(m, i), 1int, 0int,
{
    if 0 <= i < m.len() {
        match m[i] {
            NodeModel::Leaf { size, .. } => size as int,
            NodeModel::Composite { .. } => size_kids(m, i, 0),
        }
    } else {
        0
    }
}

/// The sum of the sizes of children `k..` of node `i`.
pub open spec fn size_kids(m: Seq<NodeModel>, i: int, k: int) -> int
    decreases rank_of(m, i), 0int, n_children(m, i) - k,
{
    if 0 <= i < m.len() && 0 <= k < n_children(m, i) {
        let c = child_at(m, i, k);
        (if descends(m, i, c) {
            size_spec(m, c)
        } else {
            0
        }) + size_kids(m, i, k + 1)
    } else {
        0
    }
}

impl Tree {
    pub open spec fn wf(self) -> bool {
        tree_wf(self@)
    }

    /// An empty arena: no nodes at all.
    pub fn new() -> (t: Tree)
        ensures
            t@ == Seq::<NodeModel>::empty(),
            t.wf(),
    {
        let t = Tree { nodes: Vec::new() };
        proof {
            assert(t@ =~= Seq::<NodeModel>::empty());
            assert(rank_ok(t@, Seq::<int>::empty()));
            assert(exists|r: Seq<int>| rank_ok(t@, r));
        }
        t
    }

    /// The number of nodes the arena holds.
    pub fn len(&self) -> (n: usize)
        ensures
            n == self@.len(),
    {
        self.nodes.len()
    }

    /// Constructs a leaf and hands back its index; never fails.
    pub fn new_leaf(&mut self, name: String, size: u64) -> (i: usize)
        requires
            old(self).wf(),
        ensures
            final(self).wf(),
            i == old(self)@.len(),
            final(self)@ == old(self)@.push(
                NodeModel::Leaf { name: name@, size, parent: None },
            ),
    {
        let ghost m0 = self@;
        let i = self.nodes.len();
        let node = Node::Leaf(Leaf { name, size, parent: None });
        let ghost nv = node@;
        self.nodes.push(node);
        proof {
            assert(self@ =~= m0.push(nv));
            lemma_wf_push(m0, nv);
        }
        i
    }

    /// Constructs an empty composite and hands back its index; never fails.
    pub fn new_composite(&mut self, name: String) -> (i: usize)
        requires
            old(self).wf(),
        ensures
            final(self).wf(),
            i == old(self)@.len(),
            final(self)@ == old(self)@.push(
                NodeModel::Composite { name: name@, children: Seq::empty(), parent: None },
            ),
    {
        let ghost m0 = self@;
        let i = self.nodes.len();
        let node = Node::Composite(Composite { name, children: Vec::new(), parent: None });
        let ghost nv = node@;
        self.nodes.push(node);
        proof {
            assert(nv.children() =~= Seq::<int>::empty());
            assert(nv == NodeModel::Composite {
                name: node.view().name(),
                children: Seq::<int>::empty(),
                parent: None,
            });
            assert(self@ =~= m0.push(nv));
            lemma_wf_push(m0, nv);
        }
        i
    }
}

impl Tree {
    /// The stored name of node `i`; names need not be unique among siblings.
    pub fn get_name(&self, i: usize) -> (r: &String)
        requires
            i < self@.len(),
        ensures
            r@ == self@[i as int].name(),
    {
        match &self.nodes[i] {
            Node::Leaf(l) => &l.name,
            Node::Composite(c) => &c.name,
        }
    }

    /// Whether node `i` can bear children.
    pub fn is_composite(&self, i: usize) -> (r: bool)
        requires
            i < self@.len(),
        ensures
            r == self@[i as int].is_composite(),
    {
        match &self.nodes[i] {
            Node::Leaf(_) => false,
            Node::Composite(_) => true,
        }
    }

    /// The informational back-reference of node `i`: the composite it is
    /// attached into, if any.
    pub fn parent_of(&self, i: usize) -> (r: Option<usize>)
        requires
            i < self@.len(),
        ensures
            opt_int(r) == self@[i as int].parent(),
    {
        match &self.nodes[i] {
            Node::Leaf(l) => l.parent,
            Node::Composite(c) => c.parent,
        }
    }

    /// The size of node `i`: a leaf's stored size, or the recursively
    /// aggregated size of the composite's children. Always recomputed, never
    /// cached, so a mutation of a descendant is reflected at once.
    pub fn get_size(&self, i: usize) -> (r: u64)
        requires
            self.wf(),
            i < self@.len(),
            size_spec(self@, i as int) <= u64::MAX,
        ensures
            r as int == size_spec(self@, i as int),
        decreases rank_of(self@, i as int),
    {
        match &self.nodes[i] {
            Node::Leaf(l) => {
                proof {
                    assert(self@[i as int] == self.nodes@[i as int]@);
                }
                l.size
            },
            Node::Composite(c) => {
                proof {
                    assert(self@[i as int] == self.nodes@[i as int]@);
                }
                let ghost gi = i as int;
                let n = c.children.len();
                let mut total: u64 = 0;
                let mut k: usize = 0;
                while k < n
                    invariant
                        self.wf(),
                        gi == i as int,
                        0 <= gi < self@.len(),
                        self@[gi] == self.nodes@[gi]@,
                        self.nodes@[gi] matches Node::Composite(cc) && cc == c,
                        n == n_children(self@, gi),
                        size_spec(self@, gi) <= u64::MAX,
                        0 <= k <= n,
                        total + size_kids(self@, gi, k as int) == size_spec(self@, gi),
                    decreases n - k,
                {
                    proof {
                        assert(node_wf(self@, gi));
                        assert(child_link_ok(self@, gi, k as int));
                        assert(c.children@.map_values(|u: usize| u as int)[k as int]
                            == child_at(self@, gi, k as int));
                    }
                    let ch = c.children[k];
                    proof {
                        assert(ch as int == child_at(self@, gi, k as int));
                        lemma_parent_descends(self@, ch as int);
                        assert(descends(self@, gi, ch as int));
                        lemma_size_nonneg(self@, ch as int);
                        lemma_size_kids_nonneg(self@, gi, k as int + 1);
                        assert(size_kids(self@, gi, k as int) == size_spec(self@, ch as int)
                            + size_kids(self@, gi, k as int + 1));
                    }
                    let s = self.get_size(ch);
                    total = total + s;
                    k = k + 1;
                }
                proof {
                    assert(size_kids(self@, gi, n as int) == 0);
                }
                total
            },
        }
    }
}

/// The arena after child `c` is appended to composite `p`: `p` gains `c` as
/// its last child and `c`'s back-reference is set to `p`.
pub open spec fn with_child_added(m: Seq<NodeModel>, p: int, c: int) -> Seq<NodeModel> {
    m.update(p, m[p].with_child(c)).update(c, m[c].with_parent(Some(p)))
}

impl Tree {
    /// Whether `target` lies in the subtree rooted at `from`: the defensive
    /// walk that `add_child` performs before attaching, so that no node can
    /// ever become its own descendant.
    pub fn reaches(&self, from: usize, target: usize) -> (r: bool)
        requires
            self.wf(),
            from < self@.len(),
        ensures
            r == in_sub(self@, from as int, target as int),
        decreases rank_of(self@, from as int),
    {
        let ghost gf = from as int;
        let ghost gt = target as int;
        if from == target {
            return true;
        }
        match &self.nodes[from] {
            Node::Leaf(_) => {
                proof {
                    assert(self@[gf] == self.nodes@[gf]@);
                    assert(n_children(self@, gf) == 0);
                    assert(!in_sub_kids(self@, gf, 0, gt));
                }
                false
            },
            Node::Composite(c) => {
                proof {
                    assert(self@[gf] == self.nodes@[gf]@);
                }
                let n = c.children.len();
                let mut k: usize = 0;
                let mut found = false;
                while k < n
                    invariant
                        self.wf(),
                        gf == from as int,
                        gt == target as int,
                        0 <= gf < self@.len(),
                        self@[gf] == self.nodes@[gf]@,
                        self.nodes@[gf] matches Node::Composite(cc) && cc == c,
                        n == n_children(self@, gf),
                        0 <= k <= n,
                        (found || in_sub_kids(self@, gf, k as int, gt)) == in_sub_kids(
                            self@,
                            gf,
                            0,
                            gt,
                        ),
                    decreases n - k,
                {
                    proof {
                        assert(node_wf(self@, gf));
                        assert(child_link_ok(self@, gf, k as int));
                        assert(c.children@.map_values(|u: usize| u as int)[k as int] == child_at(
                            self@,
                            gf,
                            k as int,
                        ));
                    }
                    let ch = c.children[k];
                    proof {
                        assert(ch as int == child_at(self@, gf, k as int));
                        lemma_parent_descends(self@, ch as int);
                        assert(descends(self@, gf, ch as int));
                    }
                    let sub = self.reaches(ch, target);
                    found = found || sub;
                    k = k + 1;
                }
                proof {
                    assert(!in_sub_kids(self@, gf, n as int, gt));
                }
                found
            },
        }
    }

    /// Appends `child` as the last child of `parent`.
    ///
    /// Fails with `InvalidOperation` if `parent` is a leaf or if `child` is
    /// already attached into a parent (a node is owned at most once; this is
    /// the documented widening of that error kind beyond leaf receivers),
    /// and with `CycleDetected` if attaching would make a node its own
    /// descendant, that is, if `parent` lies in `child`'s subtree. On any
    /// other composite parent and unattached child the call accepts and
    /// appends. On failure the tree is unchanged.
    pub fn add_child(&mut self, parent: usize, child: usize) -> (r: Result<(), TreeError>)
        requires
            old(self).wf(),
            parent < old(self)@.len(),
            child < old(self)@.len(),
        ensures
            final(self).wf(),
            ({
                let m = old(self)@;
                let p = parent as int;
                let c = child as int;
                if !m[p].is_composite() {
                    &&& r == Err::<(), TreeError>(TreeError::InvalidOperation)
                    &&& *final(self) == *old(self)
                } else if m[c].parent() is Some {
                    &&& r == Err::<(), TreeError>(TreeError::InvalidOperation)
                    &&& *final(self) == *old(self)
                } else if in_sub(m, c, p) {
                    &&& r == Err::<(), TreeError>(TreeError::CycleDetected)
                    &&& *final(self) == *old(self)
                } else {
                    &&& r == Ok::<(), TreeError>(())
                    &&& final(self)@ == with_child_added(m, p, c)
                }
            }),
    {
        if !self.is_composite(parent) {
            return Err(TreeError::InvalidOperation);
        }
        if self.parent_of(child).is_some() {
            return Err(TreeError::InvalidOperation);
        }
        if self.reaches(child, parent) {
            return Err(TreeError::CycleDetected);
        }
        let ghost m0 = self@;
        let ghost p = parent as int;
        let ghost c = child as int;
        let ghost oldkids: Seq<usize> = match self.nodes@[p] {
            Node::Composite(cc) => cc.children@,
            Node::Leaf(_) => Seq::empty(),
        };
        match &mut self.nodes[parent] {
            Node::Composite(comp) => {
                comp.children.push(child);
            },
            Node::Leaf(_) => {
                proof {
                    assert(false);
                }
            },
        }
        proof {
            lemma_map_push(oldkids, child);
            assert(self.nodes@[p]@ == m0[p].with_child(c));
            assert(self@ =~= m0.update(p, m0[p].with_child(c)));
        }
        let ghost m1 = self@;
        match &mut self.nodes[child] {
            Node::Leaf(l) => {
                l.parent = Some(parent);
            },
            Node::Composite(cc) => {
                cc.parent = Some(parent);
            },
        }
        proof {
            assert(self.nodes@[c]@ == m1[c].with_parent(Some(p)));
            assert(self@ =~= m1.update(c, m1[c].with_parent(Some(p))));
            assert(m1[c] == m0[c]);
            assert(self@ == with_child_added(m0, p, c));
            lemma_wf_add_child(m0, p, c);
        }
        Ok(())
    }
}

/// Mapping arena indices to their mathematical form commutes with `push`.
pub proof fn lemma_map_push(v: Seq<usize>, x: usize)
    ensures
        v.push(x).map_values(|u: usize| u as int) =~= v.map_values(|u: usize| u as int).push(
            x as int,
        ),
{
}

/// Attaching an unattached node to a composite that the node's subtree does
/// not contain keeps the arena well-formed.
pub proof fn lemma_wf_add_child(m: Seq<NodeModel>, p: int, c: int)
    requires
        tree_wf(m),
        0 <= p < m.len(),
        0 <= c < m.len(),
        m[p].is_composite(),
        m[c].parent() == Option::<int>::None,
        !in_sub(m, c, p),
    ensures
        tree_wf(with_child_added(m, p, c)),
{
    let m2 = with_child_added(m, p, c);
    lemma_in_sub_refl(m, c);
    assert(c != p);
    assert(m2.len() == m.len());
    assert(m2[p] == m[p].with_child(c));
    assert(m2[c] == m[c].with_parent(Some(p)));
    assert(m2[p].children() == m[p].children().push(c));
    assert forall|x: int| 0 <= x < m.len() && x != c implies m2[x].parent() == m[x].parent() by {}
    assert forall|x: int| 0 <= x < m.len() && x != p implies m2[x].children() == m[x].children()
        && m2[x].is_composite() == m[x].is_composite() by {}
    // No node owns `c`: its back-reference was `None`.
    assert forall|i: int, k: int|
        0 <= i < m.len() && 0 <= k < n_children(m, i) implies child_at(m, i, k) != c by {
        assert(node_wf(m, i));
        assert(child_link_ok(m, i, k));
    }
    assert forall|i: int| 0 <= i < m2.len() implies #[trigger] node_wf(m2, i) by {
        assert(node_wf(m, i));
        if i == p {
            assert forall|k: int| 0 <= k < n_children(m2, i) implies #[trigger] child_link_ok(
                m2,
                i,
                k,
            ) by {
                if k < n_children(m, p) {
                    assert(child_link_ok(m, p, k));
                    let d = child_at(m, p, k);
                    assert(d != c);
                    assert(child_at(m2, p, k) == d);
                    assert(m2[d].parent() == m[d].parent());
                } else {
                    assert(child_at(m2, p, k) == c);
                    assert(m2[c].parent() == Some(p));
                }
            }
            assert forall|k1: int, k2: int|
                0 <= k1 < k2 < n_children(m2, i) implies child_at(m2, i, k1) != child_at(
                m2,
                i,
                k2,
            ) by {
                if k2 < n_children(m, p) {
                    assert(child_at(m2, p, k1) == child_at(m, p, k1));
                    assert(child_at(m2, p, k2) == child_at(m, p, k2));
                } else {
                    assert(child_at(m2, p, k2) == c);
                    assert(child_at(m2, p, k1) == child_at(m, p, k1));
                    assert(child_at(m, p, k1) != c);
                }
            }
            assert(parent_link_ok(m2, p)) by {
                match m[p].parent() {
                    Some(q) => {
                        assert(parent_link_ok(m, p));
                        // `q == c` would put `p` inside `c`'s subtree.
                        if q == c {
                            lemma_wf_ranks(m);
                            let w0 = choose|k: int|
                                0 <= k < m[c].children().len() && m[c].children()[k] == p;
                            assert(child_link_ok(m, c, w0));
                            lemma_parent_descends(m, p);
                            lemma_in_sub_refl(m, p);
                            lemma_in_sub_kids_intro(m, c, 0, w0, p);
                            assert(in_sub(m, c, p));
                            assert(false);
                        }
                        assert(m[q].children().contains(p));
                        let w = choose|k: int|
                            0 <= k < m[q].children().len() && m[q].children()[k] == p;
                        if q == p {
                            lemma_parent_not_self(m, p);
                            assert(false);
                        } else {
                            assert(m2[q].children()[w] == p);
                            assert(m2[q].children().contains(p));
                            assert(m2[q].is_composite());
                        }
                    },
                    None => {},
                }
            }
        } else if i == c {
            assert forall|k: int| 0 <= k < n_children(m2, i) implies #[trigger] child_link_ok(
                m2,
                i,
                k,
            ) by {
                assert(child_link_ok(m, c, k));
                let d = child_at(m, c, k);
                assert(d != c);
                assert(child_at(m2, c, k) == d);
                assert(m2[d].parent() == m[d].parent());
            }
            assert forall|k1: int, k2: int|
                0 <= k1 < k2 < n_children(m2, i) implies child_at(m2, i, k1) != child_at(
                m2,
                i,
                k2,
            ) by {
                assert(child_at(m2, c, k1) == child_at(m, c, k1));
                assert(child_at(m2, c, k2) == child_at(m, c, k2));
            }
            assert(parent_link_ok(m2, c)) by {
                assert(m2[c].parent() == Some(p));
                assert(m2[p].is_composite());
                assert(m2[p].children()[n_children(m, p) as int] == c);
                assert(m2[p].children().contains(c));
            }
        } else {
            assert forall|k: int| 0 <= k < n_children(m2, i) implies #[trigger] child_link_ok(
                m2,
                i,
                k,
            ) by {
                assert(child_link_ok(m, i, k));
                let d = child_at(m, i, k);
                assert(d != c);
                assert(child_at(m2, i, k) == d);
                assert(m2[d].parent() == m[d].parent());
            }
            assert forall|k1: int, k2: int|
                0 <= k1 < k2 < n_children(m2, i) implies child_at(m2, i, k1) != child_at(
                m2,
                i,
                k2,
            ) by {
                assert(child_at(m2, i, k1) == child_at(m, i, k1));
                assert(child_at(m2, i, k2) == child_at(m, i, k2));
            }
            assert(parent_link_ok(m2, i)) by {
                match m[i].parent() {
                    Some(q) => {
                        assert(parent_link_ok(m, i));
                        assert(m[q].children().contains(i));
                        let w = choose|k: int|
                            0 <= k < m[q].children().len() && m[q].children()[k] == i;
                        if q == p {
                            assert(m2[p].children()[w] == i);
                            assert(m2[p].children().contains(i));
                        } else {
                            assert(m2[q].children() == m[q].children());
                            assert(m2[q].children()[w] == i);
                            assert(m2[q].children().contains(i));
                        }
                        assert(m2[q].is_composite());
                    },
                    None => {},
                }
            }
        }
    }
    // A new acyclicity witness: every node outside `c`'s subtree rises above
    // the whole subtree, so the new edge from `p` down to `c` descends.
    lemma_wf_ranks(m);
    let r = ranks_of(m);
    let r2 = Seq::new(m.len() as nat, |x: int| if in_sub(m, c, x) { r[x] } else { r[x] + r[c] + 1 });
    assert(rank_ok(m2, r2)) by {
        assert(r2.len() == m2.len());
        assert forall|j: int| 0 <= j < m2.len() implies 0 <= #[trigger] r2[j] by {
            assert(0 <= r[j] && 0 <= r[c]);
        }
        assert forall|j: int|
            0 <= j < m2.len() && (#[trigger] m2[j].parent()) is Some implies ({
            let q = m2[j].parent()->0;
            &&& 0 <= q < m2.len()
            &&& r2[j] < r2[q]
        }) by {
            if j == c {
                assert(m2[c].parent() == Some(p));
                assert(in_sub(m, c, c));
                assert(r2[c] == r[c]);
                assert(!in_sub(m, c, p));
                assert(r2[p] == r[p] + r[c] + 1);
                assert(0 <= r[p]);
            } else {
                assert(m2[j].parent() == m[j].parent());
                let q = m[j].parent()->0;
                assert(0 <= q < m.len() && r[j] < r[q]);
                if in_sub(m, c, j) {
                    lemma_in_sub_parent(m, c, j);
                    assert(in_sub(m, c, q));
                    assert(r2[j] == r[j] && r2[q] == r[q]);
                } else {
                    if in_sub(m, c, q) {
                        // then `j`, a child of `q`, would be in the subtree too
                        assert(node_wf(m, j));
                        assert(parent_link_ok(m, j));
                        assert(m[q].children().contains(j));
                        let w = choose|k: int|
                            0 <= k < m[q].children().len() && m[q].children()[k] == j;
                        assert(child_at(m, q, w) == j);
                        assert(child_link_ok(m, q, w)) by {
                            assert(node_wf(m, q));
                        }
                        lemma_parent_descends(m, j);
                        lemma_in_sub_refl(m, j);
                        lemma_in_sub_kids_intro(m, q, 0, w, j);
                        assert(in_sub(m, q, j));
                        lemma_in_sub_trans(m, c, q, j);
                        assert(false);
                    }
                    assert(r2[j] == r[j] + r[c] + 1 && r2[q] == r[q] + r[c] + 1);
                }
            }
        }
    }
    assert(exists|rr: Seq<int>| rank_ok(m2, rr));
}

/// The arena after child `c` is detached from composite `p`: the first (and,
/// in a well-formed arena, only) occurrence of `c` leaves `p`'s child
/// sequence and `c`'s back-reference is cleared. When `c` is not a child of
/// `p`, the arena is unchanged (a deliberate relaxed contract: removal of an
/// absent child is a no-op, not an error).
pub open spec fn with_child_removed(m: Seq<NodeModel>, p: int, c: int) -> Seq<NodeModel> {
    if m[p].children().contains(c) {
        m.update(p, m[p].with_children(m[p].children().remove_value(c))).update(
            c,
            m[c].with_parent(None),
        )
    } else {
        m
    }
}

impl Tree {
    /// Detaches `child` (addressed by identity, its arena index) from
    /// `parent`. Fails with `InvalidOperation` if `parent` is a leaf; when
    /// `child` is not among `parent`'s children the call is a no-op.
    pub fn remove_child(&mut self, parent: usize, child: usize) -> (r: Result<(), TreeError>)
        requires
            old(self).wf(),
            parent < old(self)@.len(),
            child < old(self)@.len(),
        ensures
            final(self).wf(),
            ({
                let m = old(self)@;
                let p = parent as int;
                let c = child as int;
                if !m[p].is_composite() {
                    &&& r == Err::<(), TreeError>(TreeError::InvalidOperation)
                    &&& *final(self) == *old(self)
                } else {
                    &&& r == Ok::<(), TreeError>(())
                    &&& final(self)@ == with_child_removed(m, p, c)
                }
            }),
    {
        if !self.is_composite(parent) {
            return Err(TreeError::InvalidOperation);
        }
        let ghost m0 = self@;
        let ghost p = parent as int;
        let ghost c = child as int;
        let ghost cs = m0[p].children();
        let mut pos: Option<usize> = None;
        match &self.nodes[parent] {
            Node::Composite(comp) => {
                let n = comp.children.len();
                let mut k: usize = 0;
                while k < n
                    invariant
                        c == child as int,
                        0 <= k <= n,
                        n == cs.len(),
                        comp.children@.map_values(|u: usize| u as int) == cs,
                        comp.children@.len() == cs.len(),
                        match pos {
                            None => forall|j: int| 0 <= j < k ==> cs[j] != c,
                            Some(w) => {
                                &&& w < k
                                &&& cs[w as int] == c
                                &&& forall|j: int| 0 <= j < w ==> cs[j] != c
                            },
                        },
                    decreases n - k,
                {
                    proof {
                        assert(cs[k as int] == comp.children@[k as int] as int);
                    }
                    let was_none = pos.is_none();
                    let hit = comp.children[k] == child;
                    if was_none && hit {
                        pos = Some(k);
                    }
                    proof {
                        if was_none && !hit {
                            assert(comp.children@[k as int] != child);
                            assert(cs[k as int] != c);
                        }
                    }
                    k = k + 1;
                }
            },
            Node::Leaf(_) => {
                proof {
                    assert(false);
                }
            },
        }
        match pos {
            None => {
                proof {
                    assert(!cs.contains(c));
                    assert(with_child_removed(m0, p, c) == m0);
                }
                Ok(())
            },
            Some(k) => {
                proof {
                    cs.index_of_first_ensures(c);
                    assert(cs.contains(c));
                    assert(cs.index_of_first(c) == Some(k as int)) by {
                        let idx = cs.index_of_first(c)->0;
                        if idx < k as int {
                            assert(cs[idx] != c);
                        } else if idx > k as int {
                            assert(cs[k as int] != c);
                        }
                    }
                }
                let ghost oldkids: Seq<usize> = match self.nodes@[p] {
                    Node::Composite(cc) => cc.children@,
                    Node::Leaf(_) => Seq::empty(),
                };
                proof {
                    assert(m0[p] == self.nodes@[p]@);
                    assert(m0[p].children() == oldkids.map_values(|u: usize| u as int));
                    assert(oldkids.len() == cs.len());
                }
                match &mut self.nodes[parent] {
                    Node::Composite(comp) => {
                        comp.children.remove(k);
                    },
                    Node::Leaf(_) => {
                        proof {
                            assert(false);
                        }
                    },
                }
                proof {
                    lemma_map_remove(oldkids, k as int);
                }
                let ghost m1 = self@;
                match &mut self.nodes[child] {
                    Node::Leaf(l) => {
                        l.parent = None;
                    },
                    Node::Composite(cc) => {
                        cc.parent = None;
                    },
                }
                proof {
                    assert(node_wf(m0, p));
                    assert(child_link_ok(m0, p, k as int));
                    assert(c != p);
                    assert(self.nodes@[p]@ == m0[p].with_children(cs.remove(k as int)));
                    assert(m1 =~= m0.update(p, m0[p].with_children(cs.remove(k as int))));
                    assert(self.nodes@[c]@ == m1[c].with_parent(None));
                    assert(self@ =~= m1.update(c, m1[c].with_parent(None)));
                    assert(m1[c] == m0[c]);
                    assert(cs.remove_value(c) == cs.remove(k as int));
                    assert(self@ == with_child_removed(m0, p, c));
                    lemma_wf_remove_child(m0, p, c);
                }
                Ok(())
            },
        }
    }
}

/// Mapping arena indices to their mathematical form commutes with `remove`.
pub proof fn lemma_map_remove(v: Seq<usize>, k: int)
    requires
        0 <= k < v.len(),
    ensures
        v.remove(k).map_values(|u: usize| u as int) =~= v.map_values(|u: usize| u as int).remove(
            k,
        ),
{
    v.remove_ensures(k);
    v.map_values(|u: usize| u as int).remove_ensures(k);
}

/// Detaching a child of a composite keeps the arena well-formed.
pub proof fn lemma_wf_remove_child(m: Seq<NodeModel>, p: int, c: int)
    requires
        tree_wf(m),
        0 <= p < m.len(),
        0 <= c < m.len(),
        m[p].is_composite(),
    ensures
        tree_wf(with_child_removed(m, p, c)),
{
    if !m[p].children().contains(c) {
        assert(with_child_removed(m, p, c) == m);
    } else {
        let cs = m[p].children();
        cs.index_of_first_ensures(c);
        let k0 = cs.index_of_first(c)->0;
        assert(cs[k0] == c);
        assert(node_wf(m, p));
        assert(child_link_ok(m, p, k0));
        assert(m[c].parent() == Some(p));
        lemma_parent_not_self(m, c);
        assert(c != p);
        let cs2 = cs.remove(k0);
        cs.remove_ensures(k0);
        assert(cs.remove_value(c) == cs2);
        let m2 = with_child_removed(m, p, c);
        assert(m2 == m.update(p, m[p].with_children(cs2)).update(c, m[c].with_parent(None)));
        assert(m2.len() == m.len());
        assert(m2[p] == m[p].with_children(cs2));
        assert(m2[c] == m[c].with_parent(None));
        // Every entry of the shortened sequence is a former child other
        // than `c` (children are pairwise distinct).
        assert forall|k: int| 0 <= k < cs2.len() implies exists|k2: int|
            0 <= k2 < cs.len() && k2 != k0 && cs[k2] == #[trigger] cs2[k] by {
            if k < k0 {
                assert(cs2[k] == cs[k]);
            } else {
                assert(cs2[k] == cs[k + 1]);
            }
        }
        assert forall|i: int| 0 <= i < m2.len() implies #[trigger] node_wf(m2, i) by {
            assert(node_wf(m, i));
            if i == p {
                assert forall|k: int| 0 <= k < n_children(m2, i) implies #[trigger] child_link_ok(
                    m2,
                    i,
                    k,
                ) by {
                    let k2 = choose|k2: int| 0 <= k2 < cs.len() && k2 != k0 && cs[k2] == cs2[k];
                    assert(child_link_ok(m, p, k2));
                    let d = cs2[k];
                    assert(d != c);
                    assert(m2[d].parent() == m[d].parent());
                }
                assert forall|k1: int, k2: int|
                    0 <= k1 < k2 < n_children(m2, i) implies child_at(m2, i, k1) != child_at(
                    m2,
                    i,
                    k2,
                ) by {
                    if k2 < k0 {
                        assert(cs2[k1] == cs[k1] && cs2[k2] == cs[k2]);
                        assert(child_at(m, p, k1) != child_at(m, p, k2));
                    } else if k1 >= k0 {
                        assert(cs2[k1] == cs[k1 + 1] && cs2[k2] == cs[k2 + 1]);
                        assert(child_at(m, p, k1 + 1) != child_at(m, p, k2 + 1));
                    } else {
                        assert(cs2[k1] == cs[k1] && cs2[k2] == cs[k2 + 1]);
                        assert(child_at(m, p, k1) != child_at(m, p, k2 + 1));
                    }
                }
                assert(parent_link_ok(m2, p)) by {
                    match m[p].parent() {
                        Some(q) => {
                            assert(parent_link_ok(m, p));
                            lemma_parent_not_self(m, p);
                            assert(q != p);
                            // `q == c` would close a two-step cycle between
                            // `p` and `c`, which the ranking rules out.
                            if q == c {
                                lemma_wf_ranks(m);
                                assert(ranks_of(m)[c] < ranks_of(m)[p]);
                                assert(ranks_of(m)[p] < ranks_of(m)[c]);
                                assert(false);
                            }
                            assert(m[q].children().contains(p));
                            let w = choose|k: int|
                                0 <= k < m[q].children().len() && m[q].children()[k] == p;
                            assert(m2[q].children()[w] == p);
                            assert(m2[q].children().contains(p));
                        },
                        None => {},
                    }
                }
            } else if i == c {
                assert forall|k: int| 0 <= k < n_children(m2, i) implies #[trigger] child_link_ok(
                    m2,
                    i,
                    k,
                ) by {
                    assert(child_link_ok(m, c, k));
                    let d = child_at(m, c, k);
                    lemma_parent_not_self(m, d);
                    assert(d != c);
                    assert(child_at(m2, c, k) == d);
                    assert(m2[d].parent() == m[d].parent());
                }
                assert forall|k1: int, k2: int|
                    0 <= k1 < k2 < n_children(m2, i) implies child_at(m2, i, k1) != child_at(
                    m2,
                    i,
                    k2,
                ) by {
                    assert(child_at(m2, c, k1) == child_at(m, c, k1));
                    assert(child_at(m2, c, k2) == child_at(m, c, k2));
                }
                assert(m2[c].parent() == Option::<int>::None);
            } else {
                assert forall|k: int| 0 <= k < n_children(m2, i) implies #[trigger] child_link_ok(
                    m2,
                    i,
                    k,
                ) by {
                    assert(child_link_ok(m, i, k));
                    let d = child_at(m, i, k);
                    assert(m[d].parent() == Some(i));
                    assert(d != c);
                    assert(child_at(m2, i, k) == d);
                    if d == p {
                        assert(m2[p].parent() == m[p].parent());
                    } else {
                        assert(m2[d].parent() == m[d].parent());
                    }
                }
                assert forall|k1: int, k2: int|
                    0 <= k1 < k2 < n_children(m2, i) implies child_at(m2, i, k1) != child_at(
                    m2,
                    i,
                    k2,
                ) by {
                    assert(child_at(m2, i, k1) == child_at(m, i, k1));
                    assert(child_at(m2, i, k2) == child_at(m, i, k2));
                }
                assert(parent_link_ok(m2, i)) by {
                    match m[i].parent() {
                        Some(q) => {
                            assert(parent_link_ok(m, i));
                            assert(m[q].children().contains(i));
                            let w = choose|k: int|
                                0 <= k < m[q].children().len() && m[q].children()[k] == i;
                            if q == p {
                                assert(cs[w] == i && i != c);
                                assert(w != k0);
                                if w < k0 {
                                    assert(cs2[w] == i);
                                    assert(m2[p].children().contains(i));
                                } else {
                                    assert(cs2[w - 1] == cs[w]);
                                    assert(m2[p].children().contains(i));
                                }
                            } else {
                                assert(m2[q].children() == m[q].children());
                                assert(m2[q].children()[w] == i);
                                assert(m2[q].children().contains(i));
                            }
                            assert(m2[q].is_composite());
                        },
                        None => {},
                    }
                }
            }
        }
        lemma_wf_ranks(m);
        assert(rank_ok(m2, ranks_of(m))) by {
            assert forall|j: int|
                0 <= j < m2.len() && (#[trigger] m2[j].parent()) is Some implies ({
                let q = m2[j].parent()->0;
                &&& 0 <= q < m2.len()
                &&& ranks_of(m)[j] < ranks_of(m)[q]
            }) by {
                assert(j != c);
                assert(m2[j].parent() == m[j].parent());
            }
        }
        assert(exists|rr: Seq<int>| rank_ok(m2, rr));
    }
}

/// Adding a child and at once removing it by identity restores the arena:
/// the parent's child sequence, every back-reference, and hence every
/// derived size are exactly as before the addition.
pub proof fn lemma_add_then_remove(m: Seq<NodeModel>, p: int, c: int)
    requires
        tree_wf(m),
        0 <= c < m.len(),
        0 <= p < m.len(),
        p != c,
        m[p].is_composite(),
        m[c].parent() == Option::<int>::None,
    ensures
        with_child_removed(with_child_added(m, p, c), p, c) == m,
{
    let m1 = with_child_added(m, p, c);
    let cs = m[p].children();
    let cs1 = m1[p].children();
    assert(cs1 == cs.push(c));
    assert(cs1[cs.len() as int] == c);
    assert(cs1.contains(c));
    // `c` was unattached, so it was no child of `p` before the addition.
    assert forall|j: int| 0 <= j < cs.len() implies cs[j] != c by {
        assert(node_wf(m, p));
        assert(child_link_ok(m, p, j));
    }
    cs1.index_of_first_ensures(c);
    let k0 = cs1.index_of_first(c)->0;
    assert(cs1[k0] == c);
    assert(k0 == cs.len() as int) by {
        if k0 < cs.len() as int {
            assert(cs1[k0] == cs[k0]);
        }
    }
    cs1.remove_ensures(k0);
    assert(cs1.remove(k0) =~= cs);
    assert(cs1.remove_value(c) == cs);
    let m2 = with_child_removed(m1, p, c);
    assert(m2 == m1.update(p, m1[p].with_children(cs)).update(c, m1[c].with_parent(None)));
    assert(m2[p] == m[p]);
    assert(m2[c] == m[c]);
    assert(m2 =~= m);
}

/// The size of every node is non-negative.
pub proof fn lemma_size_nonneg(m: Seq<NodeModel>, i: int)
    ensures
        size_spec(m, i) >= 0,
    decreases rank_of(m, i), 1int, 0int,
{
    if 0 <= i < m.len() && m[i].is_composite() {
        lemma_size_kids_nonneg(m, i, 0);
    }
}

/// Every partial sum of children sizes is non-negative.
pub proof fn lemma_size_kids_nonneg(m: Seq<NodeModel>, i: int, k: int)
    ensures
        size_kids(m, i, k) >= 0,
    decreases rank_of(m, i), 0int, n_children(m, i) - k,
{
    if 0 <= i < m.len() && 0 <= k < n_children(m, i) {
        let c = child_at(m, i, k);
        if descends(m, i, c) {
            lemma_size_nonneg(m, c);
        }
        lemma_size_kids_nonneg(m, i, k + 1);
    }
}

/// The common interface of the node kinds: a stored name, a capability test,
/// and the kind rendered as text.
pub trait Component {
    spec fn name_spec(&self) -> Seq<char>;

    spec fn composite_spec(&self) -> bool;

    /// The node's stored name.
    fn get_name(&self) -> (r: &String)
        ensures
            r@ == self.name_spec(),
    ;

    /// Whether the node can bear children.
    fn is_composite(&self) -> (r: bool)
        ensures
            r == self.composite_spec(),
    ;

    /// The kind of the node, rendered as text.
    fn operation(&self) -> (r: &'static str)
        ensures
            r@ == if self.composite_spec() {
                "Composite"@
            } else {
                "Leaf"@
            },
    ;
}

impl Component for Leaf {
    open spec fn name_spec(&self) -> Seq<char> {
        self.name@
    }

    open spec fn composite_spec(&self) -> bool {
        false
    }

    fn get_name(&self) -> (r: &String) {
        &self.name
    }

    fn is_composite(&self) -> (r: bool) {
        false
    }

    fn operation(&self) -> (r: &'static str) {
        "Leaf"
    }
}

impl Component for Composite {
    open spec fn name_spec(&self) -> Seq<char> {
        self.name@
    }

    open spec fn composite_spec(&self) -> bool {
        true
    }

    fn get_name(&self) -> (r: &String) {
        &self.name
    }

    fn is_composite(&self) -> (r: bool) {
        true
    }

    fn operation(&self) -> (r: &'static str) {
        "Composite"
    }
}

impl Component for Node {
    open spec fn name_spec(&self) -> Seq<char> {
        self@.name()
    }

    open spec fn composite_spec(&self) -> bool {
        self@.is_composite()
    }

    fn get_name(&self) -> (r: &String) {
        match self {
            Node::Leaf(l) => &l.name,
            Node::Composite(c) => &c.name,
        }
    }

    fn is_composite(&self) -> (r: bool) {
        match self {
            Node::Leaf(_) => false,
            Node::Composite(_) => true,
        }
    }

    fn operation(&self) -> (r: &'static str) {
        match self {
            Node::Leaf(_) => "Leaf",
            Node::Composite(_) => "Composite",
        }
    }
}

/// Appending a fresh unattached node keeps the arena well-formed.
proof fn lemma_wf_push(m: Seq<NodeModel>, nv: NodeModel)
    requires
        tree_wf(m),
        nv.parent() == Option::<int>::None,
        nv.children() == Seq::<int>::empty(),
    ensures
        tree_wf(m.push(nv)),
{
    let m2 = m.push(nv);
    assert forall|i: int| 0 <= i < m2.len() implies #[trigger] node_wf(m2, i) by {
        if i < m.len() {
            assert(node_wf(m, i));
            assert(m2[i] == m[i]);
            assert forall|k: int| 0 <= k < n_children(m2, i) implies #[trigger] child_link_ok(
                m2,
                i,
                k,
            ) by {
                assert(child_link_ok(m, i, k));
                assert(m2[child_at(m, i, k)] == m[child_at(m, i, k)]);
            }
            assert forall|k1: int, k2: int|
                0 <= k1 < k2 < n_children(m2, i) implies child_at(m2, i, k1) != child_at(
                m2,
                i,
                k2,
            ) by {
                assert(child_at(m, i, k1) != child_at(m, i, k2));
            }
            assert(parent_link_ok(m2, i)) by {
                match m[i].parent() {
                    Some(p) => {
                        assert(m2[p] == m[p]);
                        assert(m[p].children().contains(i));
                        let w = choose|k: int|
                            0 <= k < m[p].children().len() && m[p].children()[k] == i;
                        assert(m2[p].children()[w] == i);
                    },
                    None => {},
                }
            }
        } else {
            assert(m2[i] == nv);
            assert(n_children(m2, i) == 0);
            assert(parent_link_ok(m2, i));
        }
    }
    lemma_wf_ranks(m);
    let r2 = ranks_of(m).push(0);
    assert(rank_ok(m2, r2)) by {
        assert forall|j: int| 0 <= j < m2.len() implies 0 <= #[trigger] r2[j] by {
            if j < m.len() {
                assert(r2[j] == ranks_of(m)[j]);
            }
        }
        assert forall|j: int|
            0 <= j < m2.len() && (#[trigger] m2[j].parent()) is Some implies ({
            let q = m2[j].parent()->0;
            &&& 0 <= q < m2.len()
            &&& r2[j] < r2[q]
        }) by {
            assert(j < m.len());
            assert(m2[j].parent() == m[j].parent());
            let q = m[j].parent()->0;
            assert(0 <= q < m.len() && ranks_of(m)[j] < ranks_of(m)[q]);
            assert(r2[j] == ranks_of(m)[j] && r2[q] == ranks_of(m)[q]);
        }
    }
    assert(tree_wf(m2)) by {
        assert(exists|r: Seq<int>| rank_ok(m2, r));
    }
}

} // verus!
