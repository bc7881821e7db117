//! Vtrees: binary trees whose leaves are the variables of a diagram.
//!
//! A vtree node is named by its index. Indices carry no order of their own:
//! the side list `topo` lists every node with children before parents, and
//! `rank` is its inverse.

use vstd::prelude::*;

verus! {

/// Index of a vtree node.
#[derive(Clone, Copy, Debug, PartialEq, Eq, Structural, Hash)]
pub struct VtreeIdx(pub u32);

impl VtreeIdx {
    /// The index as a position in per-node arrays.
    pub fn idx(self) -> (r: usize)
        ensures
            r == self.0,
    {
        self.0 as usize
    }
}

/// A Boolean variable, numbered from zero.
#[derive(Clone, Copy, Debug, PartialEq, Eq, Structural, Hash)]
pub struct VarId(pub u32);

impl VarId {
    /// The variable as a position in per-variable arrays.
    pub fn idx(self) -> (r: usize)
        ensures
            r == self.0,
    {
        self.0 as usize
    }
}

/// A variable with a polarity.
#[derive(Clone, Copy, Debug, PartialEq, Eq, Structural)]
pub struct Literal {
    pub var: VarId,
    pub positive: bool,
}

impl Literal {
    /// The literal of `var` with the given polarity.
    pub fn new(var: VarId, positive: bool) -> (r: Literal)
        ensures
            r.var == var,
            r.positive == positive,
    {
        Literal { var, positive }
    }

    /// The positive literal of `var`.
    pub fn pos(var: VarId) -> (r: Literal)
        ensures
            r.var == var,
            r.positive,
    {
        Literal { var, positive: true }
    }

    /// The negative literal of `var`.
    pub fn neg(var: VarId) -> (r: Literal)
        ensures
            r.var == var,
            !r.positive,
    {
        Literal { var, positive: false }
    }

    /// The literal a signed DIMACS integer names: `k` is variable `k - 1`
    /// positive, `-k` the same variable negative. Zero names no literal.
    pub fn from_dimacs(code: i32) -> (r: Option<Literal>)
        ensures
            code == 0 <==> r is None,
            code > 0 ==> r == Some(Literal { var: VarId((code - 1) as u32), positive: true }),
            code < 0 ==> r == Some(Literal { var: VarId((-code - 1) as u32), positive: false }),
    {
        if code > 0 {
            Some(Literal { var: VarId((code - 1) as u32), positive: true })
        } else if code < 0 {
            let magnitude: i64 = -(code as i64);
            Some(Literal { var: VarId((magnitude - 1) as u32), positive: false })
        } else {
            None
        }
    }
}

/// One node of a vtree.
#[derive(Clone, Copy, Debug, PartialEq, Eq, Structural)]
pub enum VtreeNode {
    /// A variable.
    Leaf { var: VarId, parent: Option<VtreeIdx> },
    /// Two subtrees over disjoint variables.
    Internal { left: VtreeIdx, right: VtreeIdx, parent: Option<VtreeIdx> },
}

impl VtreeNode {
    /// The parent recorded on a node.
    pub open spec fn parent_spec(self) -> Option<VtreeIdx> {
        match self {
            VtreeNode::Leaf { parent, .. } => parent,
            VtreeNode::Internal { parent, .. } => parent,
        }
    }

    /// Whether the node is a variable.
    pub fn is_leaf(&self) -> (r: bool)
        ensures
            r == (self is Leaf),
    {
        match self {
            VtreeNode::Leaf { .. } => true,
            VtreeNode::Internal { .. } => false,
        }
    }

    /// The node's parent, or `None` at the root.
    pub fn parent(&self) -> (r: Option<VtreeIdx>)
        ensures
            r == self.parent_spec(),
    {
        match self {
            VtreeNode::Leaf { parent, .. } => *parent,
            VtreeNode::Internal { parent, .. } => *parent,
        }
    }
}

/// A vtree.
#[derive(Debug)]
pub struct Vtree {
    /// The nodes, by index.
    pub nodes: Vec<VtreeNode>,
    /// The one node without a parent.
    pub root: VtreeIdx,
    /// Every node once, children before parents.
    pub topo: Vec<VtreeIdx>,
    /// Position of each node in `topo`.
    pub rank: Vec<usize>,
    /// The leaf that carries each variable.
    pub var_to_leaf: Vec<VtreeIdx>,
}

impl Vtree {
    /// Number of nodes.
    pub open spec fn n(self) -> int {
        self.nodes@.len() as int
    }

    /// Whether node `t` is a variable.
    pub open spec fn leaf_at(self, t: int) -> bool {
        self.nodes@[t] is Leaf
    }

    /// The variable of leaf `t`.
    pub open spec fn var_at(self, t: int) -> int {
        self.nodes@[t]->var.0 as int
    }

    /// Left child of internal node `t`.
    pub open spec fn left_at(self, t: int) -> int {
        self.nodes@[t]->left.0 as int
    }

    /// Right child of internal node `t`.
    pub open spec fn right_at(self, t: int) -> int {
        self.nodes@[t]->right.0 as int
    }

    /// Parent recorded on node `t`.
    pub open spec fn parent_at(self, t: int) -> Option<VtreeIdx> {
        self.nodes@[t].parent_spec()
    }

    /// Index of the parent of node `t`; `-1` at the root.
    pub open spec fn up(self, t: int) -> int {
        match self.parent_at(t) {
            Some(p) => p.0 as int,
            None => -1,
        }
    }

    /// Position of node `t` in the bottom-up order.
    pub open spec fn rank_at(self, t: int) -> int {
        self.rank@[t] as int
    }

    /// Number of variables.
    pub open spec fn num_vars_spec(self) -> int {
        self.var_to_leaf@.len() as int
    }

    /// The constraints on one node: its place in the order, its links to its
    /// children and to its parent, and, at a leaf, the variable's way back.
    pub open spec fn node_wf(self, t: int) -> bool {
        &&& 0 <= self.rank_at(t) < self.n()
        &&& self.topo@[self.rank_at(t)].0 == t
        &&& match self.parent_at(t) {
            None => t == self.root.0,
            Some(p) => {
                &&& p.0 < self.n()
                &&& !self.leaf_at(p.0 as int)
                &&& (self.left_at(p.0 as int) == t || self.right_at(p.0 as int) == t)
            },
        }
        &&& if self.leaf_at(t) {
            &&& self.var_at(t) < self.num_vars_spec()
            &&& self.var_to_leaf@[self.var_at(t)].0 == t
        } else {
            &&& self.left_at(t) < self.n()
            &&& self.right_at(t) < self.n()
            &&& self.left_at(t) != self.right_at(t)
            &&& self.rank_at(self.left_at(t)) < self.rank_at(t)
            &&& self.rank_at(self.right_at(t)) < self.rank_at(t)
            &&& self.parent_at(self.left_at(t)) == Some(VtreeIdx(t as u32))
            &&& self.parent_at(self.right_at(t)) == Some(VtreeIdx(t as u32))
        }
    }

    /// The node lists describe one binary tree over the variables.
    pub open spec fn wf(self) -> bool {
        &&& 0 < self.n() < u32::MAX
        &&& self.rank@.len() == self.n()
        &&& self.topo@.len() == self.n()
        &&& self.root.0 < self.n()
        &&& self.parent_at(self.root.0 as int) is None
        &&& forall|t: int| 0 <= t < self.n() ==> #[trigger] self.node_wf(t)
        &&& forall|k: int|
            0 <= k < self.n() ==> (#[trigger] self.topo@[k]).0 < self.n() && self.rank_at(
                self.topo@[k].0 as int,
            ) == k
        &&& forall|v: int|
            0 <= v < self.num_vars_spec() ==> {
                &&& (#[trigger] self.var_to_leaf@[v]).0 < self.n()
                &&& self.leaf_at(self.var_to_leaf@[v].0 as int)
                &&& self.var_at(self.var_to_leaf@[v].0 as int) == v
            }
    }

    /// Number of nodes.
    pub fn num_nodes(&self) -> (r: usize)
        ensures
            r == self.n(),
    {
        self.nodes.len()
    }

    /// Number of variables.
    pub fn num_vars(&self) -> (r: usize)
        ensures
            r == self.num_vars_spec(),
    {
        self.var_to_leaf.len()
    }

    /// The root node.
    pub fn root(&self) -> (r: VtreeIdx)
        ensures
            r == self.root,
    {
        self.root
    }

    /// The node at index `t`.
    pub fn node(&self, t: VtreeIdx) -> (r: &VtreeNode)
        requires
            t.0 < self.n(),
        ensures
            *r == self.nodes@[t.0 as int],
    {
        &self.nodes[t.0 as usize]
    }

    /// Whether node `t` is a variable.
    pub fn is_leaf(&self, t: VtreeIdx) -> (r: bool)
        requires
            t.0 < self.n(),
        ensures
            r == self.leaf_at(t.0 as int),
    {
        self.nodes[t.0 as usize].is_leaf()
    }

    /// The children of internal node `t`.
    pub fn children(&self, t: VtreeIdx) -> (r: (VtreeIdx, VtreeIdx))
        requires
            t.0 < self.n(),
            !self.leaf_at(t.0 as int),
        ensures
            r.0.0 == self.left_at(t.0 as int),
            r.1.0 == self.right_at(t.0 as int),
    {
        match self.nodes[t.0 as usize] {
            VtreeNode::Internal { left, right, .. } => (left, right),
            VtreeNode::Leaf { .. } => (t, t),
        }
    }

    /// The variable of leaf `t`.
    pub fn leaf_var(&self, t: VtreeIdx) -> (r: VarId)
        requires
            t.0 < self.n(),
            self.leaf_at(t.0 as int),
        ensures
            r.0 == self.var_at(t.0 as int),
    {
        match self.nodes[t.0 as usize] {
            VtreeNode::Leaf { var, .. } => var,
            VtreeNode::Internal { .. } => VarId(0),
        }
    }

    /// The leaf that carries variable `var`.
    pub fn leaf_of(&self, var: VarId) -> (r: VtreeIdx)
        requires
            self.wf(),
            var.0 < self.num_vars_spec(),
        ensures
            r.0 < self.n(),
            self.leaf_at(r.0 as int),
            self.var_at(r.0 as int) == var.0,
    {
        self.var_to_leaf[var.0 as usize]
    }

    /// Every node once, children before parents.
    pub fn bottomup_topo(&self) -> (r: &Vec<VtreeIdx>)
        ensures
            r@ == self.topo@,
    {
        &self.topo
    }

    /// The leaves with their variables, in bottom-up order.
    pub fn leaf_bottomup(&self) -> (r: Vec<(VtreeIdx, VarId)>)
        requires
            self.wf(),
        ensures
            r@ == leaf_list(*self, self.n()),
    {
        let mut out: Vec<(VtreeIdx, VarId)> = Vec::new();
        let mut k: usize = 0;
        while k < self.topo.len()
            invariant
                self.wf(),
                0 <= k <= self.n(),
                out@ == leaf_list(*self, k as int),
            decreases self.n() - k,
        {
            let t = self.topo[k];
            if self.is_leaf(t) {
                out.push((t, self.leaf_var(t)));
            }
            k += 1;
        }
        out
    }

    /// The internal nodes with their children, in bottom-up order.
    pub fn internal_bottomup(&self) -> (r: Vec<(VtreeIdx, VtreeIdx, VtreeIdx)>)
        requires
            self.wf(),
        ensures
            r@ == internal_list(*self, self.n()),
    {
        let mut out: Vec<(VtreeIdx, VtreeIdx, VtreeIdx)> = Vec::new();
        let mut k: usize = 0;
        while k < self.topo.len()
            invariant
                self.wf(),
                0 <= k <= self.n(),
                out@ == internal_list(*self, k as int),
            decreases self.n() - k,
        {
            let t = self.topo[k];
            assert(self.node_wf(t.0 as int));
            if !self.is_leaf(t) {
                let (l, r) = self.children(t);
                out.push((t, l, r));
            }
            k += 1;
        }
        out
    }

    /// The vtree over `num_vars` variables that splits every range of
    /// variables in half, the smaller half to the left.
    pub fn balanced(num_vars: u32) -> (r: Vtree)
        requires
            0 < num_vars < 0x8000_0000,
        ensures
            r.wf(),
            r.num_vars_spec() == num_vars,
            r.n() == 2 * num_vars - 1,
            r.root.0 == r.n() - 1,
            spans(r.nodes@, r.root.0 as int, 0, num_vars as int, false),
    {
        let mut b = VtreeBuilder::new();
        let root = b.range(0, num_vars, false);
        b.finish(root)
    }

    /// The vtree over `num_vars` variables in which every left child is a
    /// variable.
    pub fn linear(num_vars: u32) -> (r: Vtree)
        requires
            0 < num_vars < 0x8000_0000,
        ensures
            r.wf(),
            r.num_vars_spec() == num_vars,
            r.n() == 2 * num_vars - 1,
            r.root.0 == r.n() - 1,
            spans(r.nodes@, r.root.0 as int, 0, num_vars as int, true),
    {
        let mut b = VtreeBuilder::new();
        let root = b.range(0, num_vars, true);
        b.finish(root)
    }
}

/// The leaves among the first `k` nodes of the bottom-up order.
pub open spec fn leaf_list(vt: Vtree, k: int) -> Seq<(VtreeIdx, VarId)>
    decreases k,
{
    if k <= 0 {
        Seq::empty()
    } else {
        let t = vt.topo@[k - 1];
        let rest = leaf_list(vt, k - 1);
        if vt.leaf_at(t.0 as int) {
            rest.push((t, VarId(vt.var_at(t.0 as int) as u32)))
        } else {
            rest
        }
    }
}

/// The internal nodes, with their children, among the first `k` nodes of the
/// bottom-up order.
pub open spec fn internal_list(vt: Vtree, k: int) -> Seq<(VtreeIdx, VtreeIdx, VtreeIdx)>
    decreases k,
{
    if k <= 0 {
        Seq::empty()
    } else {
        let t = vt.topo@[k - 1];
        let rest = internal_list(vt, k - 1);
        if vt.leaf_at(t.0 as int) {
            rest
        } else {
            rest.push(
                (
                    t,
                    VtreeIdx(vt.left_at(t.0 as int) as u32),
                    VtreeIdx(vt.right_at(t.0 as int) as u32),
                ),
            )
        }
    }
}

/// Where the variables `lo..hi` are split: in half, the smaller half to the
/// left, or behind the first of them when `linear`.
pub open spec fn split_at(lo: int, hi: int, linear: bool) -> int {
    if linear {
        lo + 1
    } else {
        lo + (hi - lo) / 2
    }
}

/// Node `t` is the root of the tree over the variables `lo..hi`, split at every
/// node. The nodes of the left subtree come first, then those of the right one,
/// then `t`.
pub open spec fn spans(nodes: Seq<VtreeNode>, t: int, lo: int, hi: int, linear: bool) -> bool
    decreases hi - lo,
{
    if hi - lo <= 1 {
        nodes[t] matches VtreeNode::Leaf { var, .. } && var.0 == lo
    } else {
        let mid = split_at(lo, hi, linear);
        &&& nodes[t] matches VtreeNode::Internal { left, right, .. }
        &&& left.0 == t - 2 * (hi - mid)
        &&& right.0 == t - 1
        &&& spans(nodes, t - 2 * (hi - mid), lo, mid, linear)
        &&& spans(nodes, t - 1, mid, hi, linear)
    }
}

/// The nodes are the same but for their parents.
spec fn same_below(a: VtreeNode, b: VtreeNode) -> bool {
    match (a, b) {
        (VtreeNode::Leaf { var: x, .. }, VtreeNode::Leaf { var: y, .. }) => x == y,
        (
            VtreeNode::Internal { left: l, right: r, .. },
            VtreeNode::Internal { left: p, right: q, .. },
        ) => l == p && r == q,
        _ => false,
    }
}

/// What a tree spans does not depend on parents, nor on other nodes.
proof fn lemma_spans_same(
    a: Seq<VtreeNode>,
    b: Seq<VtreeNode>,
    t: int,
    lo: int,
    hi: int,
    linear: bool,
)
    requires
        lo < hi,
        spans(a, t, lo, hi, linear),
        forall|i: int|
            t - 2 * (hi - lo) + 1 < i <= t ==> same_below(#[trigger] a[i], b[i]),
    ensures
        spans(b, t, lo, hi, linear),
    decreases hi - lo,
{
    assert(same_below(a[t], b[t]));
    if hi - lo > 1 {
        let mid = split_at(lo, hi, linear);
        lemma_spans_same(a, b, t - 2 * (hi - mid), lo, mid, linear);
        lemma_spans_same(a, b, t - 1, mid, hi, linear);
    }
}

/// A vtree under construction: a forest whose nodes are appended children
/// first. Joining two roots makes a new root above them.
pub struct VtreeBuilder {
    pub nodes: Vec<VtreeNode>,
    pub var_to_leaf: Vec<VtreeIdx>,
}

impl VtreeBuilder {
    /// Parent of node `t`.
    pub open spec fn parent_at(self, t: int) -> Option<VtreeIdx> {
        self.nodes@[t].parent_spec()
    }

    /// The links of node `t` agree with those of its parent and children, and
    /// children come first.
    pub open spec fn node_wf(self, t: int) -> bool {
        let len = self.nodes@.len();
        &&& match self.parent_at(t) {
            None => true,
            Some(p) => t < p.0 < len && match self.nodes@[p.0 as int] {
                VtreeNode::Internal { left, right, .. } => left.0 == t || right.0 == t,
                VtreeNode::Leaf { .. } => false,
            },
        }
        &&& match self.nodes@[t] {
            VtreeNode::Leaf { var, .. } => {
                &&& var.0 < self.var_to_leaf@.len()
                &&& self.var_to_leaf@[var.0 as int].0 == t
            },
            VtreeNode::Internal { left, right, .. } => {
                &&& left.0 < t
                &&& right.0 < t
                &&& left.0 != right.0
                &&& self.parent_at(left.0 as int) == Some(VtreeIdx(t as u32))
                &&& self.parent_at(right.0 as int) == Some(VtreeIdx(t as u32))
            },
        }
    }

    /// The forest is well linked.
    pub open spec fn wf(self) -> bool {
        &&& self.nodes@.len() < u32::MAX
        &&& self.var_to_leaf@.len() <= self.nodes@.len()
        &&& forall|t: int| 0 <= t < self.nodes@.len() ==> #[trigger] self.node_wf(t)
        &&& forall|v: int|
            0 <= v < self.var_to_leaf@.len() ==> {
                &&& (#[trigger] self.var_to_leaf@[v]).0 < self.nodes@.len()
                &&& self.nodes@[self.var_to_leaf@[v].0 as int] matches VtreeNode::Leaf { var, .. }
                &&& var.0 == v
            }
    }

    /// Whether `t` is a root of the forest.
    pub open spec fn is_root(self, t: int) -> bool {
        0 <= t < self.nodes@.len() && self.parent_at(t) is None
    }

    /// An empty forest.
    pub fn new() -> (r: VtreeBuilder)
        ensures
            r.wf(),
            r.nodes@.len() == 0,
            r.var_to_leaf@.len() == 0,
    {
        VtreeBuilder { nodes: Vec::new(), var_to_leaf: Vec::new() }
    }

    /// Append a leaf that carries the next variable.
    pub fn leaf(&mut self) -> (r: VtreeIdx)
        requires
            old(self).wf(),
            old(self).nodes@.len() + 1 < u32::MAX,
        ensures
            final(self).wf(),
            r.0 == old(self).nodes@.len(),
            final(self).is_root(r.0 as int),
            final(self).nodes@ == old(self).nodes@.push(
                VtreeNode::Leaf {
                    var: VarId(old(self).var_to_leaf@.len() as u32),
                    parent: None,
                },
            ),
            final(self).var_to_leaf@ == old(self).var_to_leaf@.push(r),
    {
        let idx = VtreeIdx(self.nodes.len() as u32);
        let var = VarId(self.var_to_leaf.len() as u32);
        self.nodes.push(VtreeNode::Leaf { var, parent: None });
        self.var_to_leaf.push(idx);
        proof {
            assert forall|t: int| 0 <= t < self.nodes@.len() implies #[trigger] self.node_wf(t) by {
                if t < old(self).nodes@.len() {
                    assert(old(self).node_wf(t));
                }
            }
        }
        idx
    }

    /// Append a node above the roots `left` and `right`.
    pub fn join(&mut self, left: VtreeIdx, right: VtreeIdx) -> (r: VtreeIdx)
        requires
            old(self).wf(),
            old(self).nodes@.len() + 1 < u32::MAX,
            old(self).is_root(left.0 as int),
            old(self).is_root(right.0 as int),
            left != right,
        ensures
            final(self).wf(),
            r.0 == old(self).nodes@.len(),
            final(self).nodes@.len() == old(self).nodes@.len() + 1,
            final(self).nodes@[r.0 as int] == (VtreeNode::Internal { left, right, parent: None }),
            final(self).var_to_leaf@ == old(self).var_to_leaf@,
            forall|t: int|
                0 <= t < old(self).nodes@.len() ==> #[trigger] final(self).nodes@[t] == (if t
                    == left.0 || t == right.0 {
                    with_parent(old(self).nodes@[t], r)
                } else {
                    old(self).nodes@[t]
                }),
    {
        let idx = VtreeIdx(self.nodes.len() as u32);
        assert(old(self).node_wf(left.0 as int));
        assert(old(self).node_wf(right.0 as int));
        let ln = set_parent(self.nodes[left.0 as usize], idx);
        let rn = set_parent(self.nodes[right.0 as usize], idx);
        self.nodes.set(left.0 as usize, ln);
        self.nodes.set(right.0 as usize, rn);
        self.nodes.push(VtreeNode::Internal { left, right, parent: None });
        proof {
            assert forall|t: int| 0 <= t < self.nodes@.len() implies #[trigger] self.node_wf(t) by {
                if t < old(self).nodes@.len() {
                    assert(old(self).node_wf(t));
                    if self.nodes@[t] is Internal {
                        assert(old(self).node_wf(old(self).nodes@[t]->left.0 as int));
                        assert(old(self).node_wf(old(self).nodes@[t]->right.0 as int));
                    }
                }
            }
            assert forall|v: int| 0 <= v < self.var_to_leaf@.len() implies {
                &&& (#[trigger] self.var_to_leaf@[v]).0 < self.nodes@.len()
                &&& self.nodes@[self.var_to_leaf@[v].0 as int] matches VtreeNode::Leaf { var, .. }
                &&& var.0 == v
            } by {
                assert(old(self).var_to_leaf@[v].0 < old(self).nodes@.len());
            }
        }
        idx
    }

    /// Append a subtree over the variables `lo..hi`: in half at every node, or
    /// with one variable split off to the left at every node when `linear`.
    fn range(&mut self, lo: u32, hi: u32, linear: bool) -> (r: VtreeIdx)
        requires
            old(self).wf(),
            lo < hi,
            old(self).var_to_leaf@.len() == lo,
            old(self).nodes@.len() + 2 * (hi - lo) - 1 < u32::MAX,
        ensures
            final(self).wf(),
            final(self).var_to_leaf@.len() == hi,
            final(self).nodes@.len() == old(self).nodes@.len() + 2 * (hi - lo) - 1,
            r.0 == final(self).nodes@.len() - 1,
            final(self).is_root(r.0 as int),
            forall|t: int|
                0 <= t < old(self).nodes@.len() ==> #[trigger] final(self).nodes@[t] == old(self).nodes@[t],
            forall|t: int|
                old(self).nodes@.len() <= t < r.0 ==> (#[trigger] final(self).nodes@[t]).parent_spec() is Some,
            spans(final(self).nodes@, r.0 as int, lo as int, hi as int, linear),
        decreases hi - lo,
    {
        if hi - lo == 1 {
            self.leaf()
        } else {
            let mid: u32 = if linear {
                lo + 1
            } else {
                lo + (hi - lo) / 2
            };
            let l = self.range(lo, mid, linear);
            let ghost mid_self = *self;
            let r = self.range(mid, hi, linear);
            assert(self.nodes@[l.0 as int] == mid_self.nodes@[l.0 as int]);
            let ghost all = *self;
            let top = self.join(l, r);
            proof {
                lemma_spans_same(
                    mid_self.nodes@,
                    self.nodes@,
                    l.0 as int,
                    lo as int,
                    mid as int,
                    linear,
                );
                lemma_spans_same(
                    all.nodes@,
                    self.nodes@,
                    r.0 as int,
                    mid as int,
                    hi as int,
                    linear,
                );
            }
            top
        }
    }

    /// The finished vtree, when `root` is the only root and the last node.
    pub fn finish(self, root: VtreeIdx) -> (r: Vtree)
        requires
            self.wf(),
            self.is_root(root.0 as int),
            forall|t: int|
                0 <= t < self.nodes@.len() && t != root.0 ==> (#[trigger] self.nodes@[t]).parent_spec() is Some,
        ensures
            r.wf(),
            r.nodes@ == self.nodes@,
            r.root == root,
            r.var_to_leaf@ == self.var_to_leaf@,
    {
        let n: usize = self.nodes.len();
        let mut topo: Vec<VtreeIdx> = Vec::new();
        let mut rank: Vec<usize> = Vec::new();
        let mut k: usize = 0;
        while k < n
            invariant
                n == self.nodes@.len(),
                n < u32::MAX,
                0 <= k <= n,
                topo@.len() == k,
                rank@.len() == k,
                forall|i: int| 0 <= i < k ==> (#[trigger] topo@[i]).0 == i,
                forall|i: int| 0 <= i < k ==> #[trigger] rank@[i] == i,
            decreases n - k,
        {
            topo.push(VtreeIdx(k as u32));
            rank.push(k);
            k += 1;
        }
        let r = Vtree { nodes: self.nodes, root, topo, rank, var_to_leaf: self.var_to_leaf };
        proof {
            assert forall|t: int| 0 <= t < r.n() implies #[trigger] r.node_wf(t) by {
                assert(self.node_wf(t));
            }
        }
        r
    }
}

/// `node` with its parent replaced.
pub open spec fn with_parent(node: VtreeNode, p: VtreeIdx) -> VtreeNode {
    match node {
        VtreeNode::Leaf { var, .. } => VtreeNode::Leaf { var, parent: Some(p) },
        VtreeNode::Internal { left, right, .. } => VtreeNode::Internal {
            left,
            right,
            parent: Some(p),
        },
    }
}

fn set_parent(node: VtreeNode, p: VtreeIdx) -> (r: VtreeNode)
    ensures
        r == with_parent(node, p),
{
    match node {
        VtreeNode::Leaf { var, .. } => VtreeNode::Leaf { var, parent: Some(p) },
        VtreeNode::Internal { left, right, .. } => VtreeNode::Internal {
            left,
            right,
            parent: Some(p),
        },
    }
}

} // verus!
