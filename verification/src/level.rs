//! One level of a diagram: the nodes at one vtree node, with their pair lists
//! in a shared arena, or the counts that stand in for them.
//!
//! A node's pairs lie in a range of the arena, except that a node with one
//! pair carries it in the node itself where the encoding allows. Rewrites
//! shrink ranges in place and append at the tail; what they leave behind is
//! counted in `dead_pairs` and swept when it dominates the arena.

use crate::big_side::BigSide;
use crate::limits::{carried, denied, try_push, vec_capacity, ApplyError, ApplyLimits};
use vstd::prelude::*;

verus! {

/// Index of a node within its level.
#[derive(Clone, Copy, Debug, PartialEq, Eq, Structural, Hash)]
pub struct LocalNodeIdx(pub u32);

impl LocalNodeIdx {
    /// The index as a position.
    pub fn idx(self) -> (r: usize)
        ensures
            r == self.0,
    {
        self.0 as usize
    }
}

/// The index that no node has: the constant-false function.
pub const ZERO_RAW: u32 = 0xffff_ffff;

/// Number of implicit nodes at a leaf level.
pub const LEAF_WIDTH: usize = 3;

/// The implicit node `One` of a leaf level.
pub const ONE_LEAF_RAW: u32 = 0;

/// The implicit node `Pos` of a leaf level.
pub const POS_LEAF_RAW: u32 = 1;

/// The implicit node `Neg` of a leaf level.
pub const NEG_LEAF_RAW: u32 = 2;

/// The functions of one variable, in the order of their indices.
#[derive(Clone, Copy, Debug, PartialEq, Eq, Structural)]
pub enum LeafLabel {
    /// True for both values.
    One,
    /// The positive literal.
    Pos,
    /// The negative literal.
    Neg,
    /// True for neither value.
    Zero,
}

impl LeafLabel {
    /// The label at index `i`.
    pub open spec fn at(i: int) -> LeafLabel {
        if i == 0 {
            LeafLabel::One
        } else if i == 1 {
            LeafLabel::Pos
        } else if i == 2 {
            LeafLabel::Neg
        } else {
            LeafLabel::Zero
        }
    }

    /// The label at index `i`; past the implicit nodes, `Zero`.
    pub fn from_idx(i: usize) -> (r: LeafLabel)
        ensures
            r == LeafLabel::at(i as int),
    {
        if i == 0 {
            LeafLabel::One
        } else if i == 1 {
            LeafLabel::Pos
        } else if i == 2 {
            LeafLabel::Neg
        } else {
            LeafLabel::Zero
        }
    }
}

/// One term of a node: a node of the left child level with one of the right.
#[derive(Clone, Copy, Debug, PartialEq, Eq, Structural, Hash)]
pub struct InputPair {
    pub left: LocalNodeIdx,
    pub right: LocalNodeIdx,
}

/// A raw reference with this bit set cannot be carried in a node itself.
pub const HIGH_BIT: u32 = 0x8000_0000;

impl InputPair {
    /// Whether a node can carry this pair in itself.
    pub open spec fn inlinable(self) -> bool {
        self.left.0 < HIGH_BIT && self.right.0 < HIGH_BIT
    }

    /// Whether a node can carry this pair in itself.
    pub fn can_inline(self) -> (r: bool)
        ensures
            r == self.inlinable(),
    {
        self.left.0 < HIGH_BIT && self.right.0 < HIGH_BIT
    }
}

/// A range of the arena too large for the node itself to name.
#[derive(Clone, Copy, Debug, PartialEq, Eq, Structural)]
pub struct ExtMulti {
    pub start: u64,
    pub len: u64,
}

/// How a node holds its pairs.
#[derive(Clone, Copy, Debug, PartialEq, Eq, Structural)]
pub enum TddNodeData {
    /// A leaf label; no pairs.
    Leaf(LeafLabel),
    /// A removed node; no pairs.
    Tombstone,
    /// One pair, in the node itself.
    Inline(InputPair),
    /// A range of the arena.
    Multi { start: u32, len: u32 },
    /// A range of the arena, by its entry in the side list.
    Extended(usize),
}

impl TddNodeData {
    /// A leaf label.
    pub fn leaf(label: LeafLabel) -> (r: TddNodeData)
        ensures
            r == TddNodeData::Leaf(label),
    {
        TddNodeData::Leaf(label)
    }

    /// A node carrying `pair` in itself.
    pub fn inline(pair: InputPair) -> (r: TddNodeData)
        ensures
            r == TddNodeData::Inline(pair),
    {
        TddNodeData::Inline(pair)
    }

    /// Whether the pair is in the node itself.
    pub fn is_inline(&self) -> (r: bool)
        ensures
            r == (self is Inline),
    {
        matches!(self, TddNodeData::Inline(_))
    }

    /// Whether the node names a range of the arena.
    pub fn is_multi(&self) -> (r: bool)
        ensures
            r == (self is Multi || self is Extended),
    {
        matches!(self, TddNodeData::Multi { .. }) || matches!(self, TddNodeData::Extended(_))
    }

    /// Whether the node has a pair list.
    pub fn is_internal(&self) -> (r: bool)
        ensures
            r == (self is Inline || self is Multi || self is Extended),
    {
        self.is_inline() || self.is_multi()
    }

    /// Whether the node was removed.
    pub fn is_tombstone(&self) -> (r: bool)
        ensures
            r == (self is Tombstone),
    {
        matches!(self, TddNodeData::Tombstone)
    }
}

/// Side of a vtree node on which a child sits.
#[derive(Clone, Copy, Debug, PartialEq, Eq, Structural)]
pub enum ChildSide {
    Left,
    Right,
}

/// The reference that `p` holds on `side`.
pub open spec fn side_ref(p: InputPair, side: ChildSide) -> u32 {
    match side {
        ChildSide::Left => p.left.0,
        ChildSide::Right => p.right.0,
    }
}

/// The reference that `p` holds on the side opposite `side`.
pub open spec fn other_ref(p: InputPair, side: ChildSide) -> u32 {
    match side {
        ChildSide::Left => p.right.0,
        ChildSide::Right => p.left.0,
    }
}

/// `p` with the reference on `side` replaced.
pub open spec fn with_side_ref(p: InputPair, side: ChildSide, raw: u32) -> InputPair {
    match side {
        ChildSide::Left => InputPair { left: LocalNodeIdx(raw), right: p.right },
        ChildSide::Right => InputPair { left: p.left, right: LocalNodeIdx(raw) },
    }
}

/// The reference that `p` holds on `side`.
pub fn get_side_ref(p: InputPair, side: ChildSide) -> (r: u32)
    ensures
        r == side_ref(p, side),
{
    match side {
        ChildSide::Left => p.left.0,
        ChildSide::Right => p.right.0,
    }
}

/// The reference that `p` holds on the side opposite `side`.
pub fn get_other_ref(p: InputPair, side: ChildSide) -> (r: u32)
    ensures
        r == other_ref(p, side),
{
    match side {
        ChildSide::Left => p.right.0,
        ChildSide::Right => p.left.0,
    }
}

/// `p` with the reference on `side` replaced.
pub fn set_side_ref(p: InputPair, side: ChildSide, raw: u32) -> (r: InputPair)
    ensures
        r == with_side_ref(p, side, raw),
{
    match side {
        ChildSide::Left => InputPair { left: LocalNodeIdx(raw), right: p.right },
        ChildSide::Right => InputPair { left: p.left, right: LocalNodeIdx(raw) },
    }
}

/// One level of a diagram.
pub struct TddLevel {
    /// The nodes.
    pub nodes: Vec<TddNodeData>,
    /// The pair arena.
    pub pairs: Vec<InputPair>,
    /// Side list of arena ranges.
    pub ext: Vec<ExtMulti>,
    /// Whether left references may carry counts in themselves.
    pub marg_inlined_left: bool,
    /// Whether right references may carry counts in themselves.
    pub marg_inlined_right: bool,
    /// Number of removed nodes still in `nodes`.
    pub n_tombstones: usize,
    /// Arena slots that no node names any more, as far as they were noted.
    pub dead_pairs: usize,
    /// Counts of the nodes, once their structure was summed out.
    pub marginal_counts: Option<Vec<u128>>,
    /// Exact values of the counts that overflowed.
    pub marginal_counts_big: Option<BigSide>,
    /// Whether the nodes' values live in the diagram's weight store.
    pub weight_marginal: bool,
    /// Number of values in the weight store, at such a level.
    pub retired_marg_width: u32,
}

/// The count that marks an overflowed slot.
pub const COUNT_OVERFLOW: u128 = 0xffff_ffff_ffff_ffff_ffff_ffff_ffff_ffff;

/// `core::slice::from_ref`: the slice holding just the referenced element.
#[verifier::external_body]
fn slice_of_one<T>(x: &T) -> (r: &[T])
    ensures
        r@ == seq![*x],
{
    core::slice::from_ref(x)
}

/// `Vec::shrink_to_fit` gives spare capacity back and keeps the elements. How
/// much room stays is left open.
#[verifier::external_body]
fn vec_shrink_to_fit<T>(v: &mut Vec<T>)
    ensures
        final(v)@ == old(v)@,
{
    v.shrink_to_fit();
}

/// Whether the room of an array is worth giving back: more than four times
/// what it holds.
pub fn has_slack(len: usize, capacity: usize) -> (r: bool)
    ensures
        r == (capacity > 4 * len),
{
    capacity as u128 > 4 * (len as u128)
}

impl TddLevel {
    /// Dead slots below which the arena is never swept.
    pub const PAIRS_COMPACT_MIN_DEAD: usize = 1024;

    /// Whether node `i` names a range of the arena.
    pub open spec fn in_arena(self, i: int) -> bool {
        self.nodes@[i] is Multi || self.nodes@[i] is Extended
    }

    /// First arena slot of node `i`.
    pub open spec fn start_at(self, i: int) -> int {
        match self.nodes@[i] {
            TddNodeData::Multi { start, .. } => start as int,
            TddNodeData::Extended(e) => self.ext@[e as int].start as int,
            _ => 0,
        }
    }

    /// Number of arena slots of node `i`.
    pub open spec fn len_at(self, i: int) -> int {
        match self.nodes@[i] {
            TddNodeData::Multi { len, .. } => len as int,
            TddNodeData::Extended(e) => self.ext@[e as int].len as int,
            _ => 0,
        }
    }

    /// The pair list of node `i`.
    pub open spec fn pairs_at(self, i: int) -> Seq<InputPair> {
        match self.nodes@[i] {
            TddNodeData::Inline(p) => seq![p],
            TddNodeData::Leaf(_) => Seq::empty(),
            TddNodeData::Tombstone => Seq::empty(),
            _ => self.pairs@.subrange(self.start_at(i), self.start_at(i) + self.len_at(i)),
        }
    }

    /// The pair lists of all nodes.
    pub open spec fn content(self) -> Seq<Seq<InputPair>> {
        Seq::new(self.nodes@.len(), |i: int| self.pairs_at(i))
    }

    /// Node `i` names a range inside the arena.
    pub open spec fn node_wf(self, i: int) -> bool {
        &&& self.nodes@[i] matches TddNodeData::Extended(e) ==> e < self.ext@.len()
        &&& self.start_at(i) + self.len_at(i) <= self.pairs.len()
    }

    /// The ranges of nodes `i` and `j` are apart.
    pub open spec fn apart(self, i: int, j: int) -> bool {
        &&& self.in_arena(i) && self.in_arena(j) ==> self.start_at(i) + self.len_at(i)
            <= self.start_at(j) || self.start_at(j) + self.len_at(j) <= self.start_at(i)
        &&& self.nodes@[i] is Extended && self.nodes@[j] is Extended ==> self.nodes@[i]
            != self.nodes@[j]
    }

    /// Every range lies in the arena and no two overlap.
    pub open spec fn arena_wf(self) -> bool {
        &&& forall|i: int| 0 <= i < self.nodes@.len() ==> #[trigger] self.node_wf(i)
        &&& forall|i: int, j: int|
            0 <= i < self.nodes@.len() && 0 <= j < self.nodes@.len() && i != j
                ==> #[trigger] self.apart(i, j)
    }

    /// The count store: a slot holds the overflow mark exactly where the side
    /// table has its value.
    pub open spec fn store_wf(self) -> bool {
        match self.marginal_counts {
            None => self.marginal_counts_big is None,
            Some(c) => {
                &&& c@.len() <= crate::marg_ref::MARG_INLINE_MAX + 1
                &&& match self.marginal_counts_big {
                    None => forall|s: int| 0 <= s < c@.len() ==> #[trigger] c@[s] != COUNT_OVERFLOW,
                    Some(b) => {
                        &&& b.wf()
                        &&& forall|s: int|
                            0 <= s < c@.len() ==> (#[trigger] c@[s] == COUNT_OVERFLOW <==> b.has(s))
                        &&& forall|s: int| b.has(s) ==> 0 <= s < c@.len()
                    },
                }
            },
        }
    }

    /// The level is well formed.
    pub open spec fn wf(self) -> bool {
        &&& self.arena_wf()
        &&& self.store_wf()
        &&& self.nodes@.len() < ZERO_RAW
        &&& self.marginal_counts is Some ==> !self.weight_marginal
        &&& self.n_tombstones == 0 ==> forall|i: int|
            0 <= i < self.nodes@.len() ==> !(#[trigger] self.nodes@[i] is Tombstone)
    }

    /// Whether the level's structure was summed out.
    pub open spec fn marginal(self) -> bool {
        self.marginal_counts is Some || self.weight_marginal
    }

    /// Number of nodes, or of the values that stand in for them.
    pub open spec fn spec_width(self) -> int {
        match self.marginal_counts {
            Some(c) => c@.len() as int,
            None => if self.weight_marginal {
                self.retired_marg_width as int
            } else {
                self.nodes@.len() as int
            },
        }
    }

    /// The count in slot `s`.
    pub open spec fn slot_count(self, s: int) -> nat {
        let c = self.marginal_counts->0@[s];
        if c == COUNT_OVERFLOW {
            match self.marginal_counts_big {
                Some(b) => b.at(s),
                None => 0,
            }
        } else {
            c as nat
        }
    }

    /// The level apart from its arena: what the rewrites of pair lists keep.
    pub open spec fn same_store(self, other: TddLevel) -> bool {
        &&& self.marginal_counts == other.marginal_counts
        &&& self.marginal_counts_big == other.marginal_counts_big
        &&& self.weight_marginal == other.weight_marginal
        &&& self.retired_marg_width == other.retired_marg_width
    }

    /// The flags apart from the store and the arena.
    pub open spec fn same_flags(self, other: TddLevel) -> bool {
        &&& self.marg_inlined_left == other.marg_inlined_left
        &&& self.marg_inlined_right == other.marg_inlined_right
        &&& self.n_tombstones == other.n_tombstones
    }

    /// A level without nodes.
    pub fn new() -> (r: TddLevel)
        ensures
            r.wf(),
            !r.marginal(),
            r.nodes@.len() == 0,
            r.pairs@.len() == 0,
            r.ext@.len() == 0,
            !r.marg_inlined_left && !r.marg_inlined_right,
            r.n_tombstones == 0,
            r.dead_pairs == 0,
            r.marginal_counts is None,
            r.marginal_counts_big is None,
            r.retired_marg_width == 0,
    {
        TddLevel {
            nodes: Vec::new(),
            pairs: Vec::new(),
            ext: Vec::new(),
            marg_inlined_left: false,
            marg_inlined_right: false,
            n_tombstones: 0,
            dead_pairs: 0,
            marginal_counts: None,
            marginal_counts_big: None,
            weight_marginal: false,
            retired_marg_width: 0,
        }
    }

    /// Whether the level's structure was summed out.
    pub fn is_marginal(&self) -> (r: bool)
        ensures
            r == self.marginal(),
    {
        self.marginal_counts.is_some() || self.weight_marginal
    }

    /// Whether the level's values live in the weight store.
    pub fn is_weight_marginal(&self) -> (r: bool)
        ensures
            r == self.weight_marginal,
    {
        self.weight_marginal
    }

    /// Number of nodes, or of the values that stand in for them.
    pub fn width(&self) -> (r: usize)
        ensures
            r == self.spec_width(),
    {
        match &self.marginal_counts {
            Some(c) => c.len(),
            None => if self.weight_marginal {
                self.retired_marg_width as usize
            } else {
                self.nodes.len()
            },
        }
    }

    /// Replace the nodes by their counts.
    pub fn make_marginal(&mut self, counts: Vec<u128>, big: Option<BigSide>)
        requires
            counts@.len() <= crate::marg_ref::MARG_INLINE_MAX + 1,
            match big {
                None => forall|s: int|
                    0 <= s < counts@.len() ==> #[trigger] counts@[s] != COUNT_OVERFLOW,
                Some(b) => {
                    &&& b.wf()
                    &&& forall|s: int|
                        0 <= s < counts@.len() ==> (#[trigger] counts@[s] == COUNT_OVERFLOW
                            <==> b.has(s))
                    &&& forall|s: int| b.has(s) ==> 0 <= s < counts@.len()
                },
            },
        ensures
            final(self).wf(),
            final(self).marginal_counts == Some(counts),
            final(self).marginal_counts_big == big,
            !final(self).weight_marginal,
            final(self).nodes@.len() == 0,
    {
        self.nodes = Vec::new();
        self.pairs = Vec::new();
        self.ext = Vec::new();
        self.n_tombstones = 0;
        self.dead_pairs = 0;
        self.marginal_counts = Some(counts);
        self.marginal_counts_big = big;
        self.weight_marginal = false;
        self.retired_marg_width = 0;
    }

    /// Replace the nodes by `slots` values of the weight store.
    pub fn make_marginal_weighted_with_slots(&mut self, slots: u32)
        ensures
            final(self).wf(),
            final(self).weight_marginal,
            final(self).marginal_counts is None,
            final(self).retired_marg_width == slots,
            final(self).nodes@.len() == 0,
    {
        self.nodes = Vec::new();
        self.pairs = Vec::new();
        self.ext = Vec::new();
        self.n_tombstones = 0;
        self.dead_pairs = 0;
        self.marginal_counts = None;
        self.marginal_counts_big = None;
        self.weight_marginal = true;
        self.retired_marg_width = slots;
    }

    /// The pair list of node `i`.
    pub fn pairs_of_idx(&self, i: usize) -> (r: &[InputPair])
        requires
            self.arena_wf(),
            i < self.nodes@.len(),
        ensures
            r@ == self.pairs_at(i as int),
    {
        assert(self.node_wf(i as int));
        match &self.nodes[i] {
            TddNodeData::Inline(p) => slice_of_one(p),
            TddNodeData::Leaf(_) | TddNodeData::Tombstone => {
                assert(self.pairs@.subrange(0, 0) =~= Seq::<InputPair>::empty());
                vstd::slice::slice_subrange(self.pairs.as_slice(), 0, 0)
            },
            TddNodeData::Multi { start, len } => {
                let s: usize = *start as usize;
                let e: usize = s + *len as usize;
                vstd::slice::slice_subrange(self.pairs.as_slice(), s, e)
            },
            TddNodeData::Extended(x) => {
                let s: usize = self.ext[*x].start as usize;
                let e: usize = s + self.ext[*x].len as usize;
                vstd::slice::slice_subrange(self.pairs.as_slice(), s, e)
            },
        }
    }

    /// Number of pairs of node `i`.
    pub fn pair_count_at(&self, i: usize) -> (r: usize)
        requires
            self.arena_wf(),
            i < self.nodes@.len(),
        ensures
            r == self.pairs_at(i as int).len(),
    {
        self.pairs_of_idx(i).len()
    }

    /// First arena slot of node `i`.
    pub fn multi_start_at(&self, i: usize) -> (r: usize)
        requires
            self.arena_wf(),
            i < self.nodes@.len(),
            self.in_arena(i as int),
        ensures
            r == self.start_at(i as int),
    {
        assert(self.node_wf(i as int));
        match self.nodes[i] {
            TddNodeData::Multi { start, .. } => start as usize,
            TddNodeData::Extended(x) => self.ext[x].start as usize,
            _ => 0,
        }
    }

    /// Number of arena slots of node `i`, zero where its pair is in the node.
    pub fn arena_pairs_at(&self, i: usize) -> (r: usize)
        requires
            self.arena_wf(),
            i < self.nodes@.len(),
        ensures
            r == self.len_at(i as int),
    {
        assert(self.node_wf(i as int));
        match self.nodes[i] {
            TddNodeData::Multi { len, .. } => len as usize,
            TddNodeData::Extended(x) => self.ext[x].len as usize,
            _ => 0,
        }
    }

    /// Count `n` more arena slots as dead.
    pub fn note_dead_pairs(&mut self, n: usize)
        ensures
            *final(self) == (TddLevel {
                dead_pairs: final(self).dead_pairs,
                ..*old(self)
            }),
            final(self).dead_pairs == if old(self).dead_pairs + n > usize::MAX {
                usize::MAX as int
            } else {
                old(self).dead_pairs + n
            },
    {
        self.dead_pairs = self.dead_pairs.saturating_add(n);
    }

    /// Name the arena range `start..start + len` in a node, by an entry of the
    /// side list where it is too large for the node itself.
    pub fn encode_multi(&mut self, start: usize, len: usize) -> (r: TddNodeData)
        ensures
            *final(self) == (TddLevel { ext: final(self).ext, ..*old(self) }),
            match r {
                TddNodeData::Multi { start: s, len: l } => s == start && l == len && final(self).ext@ == old(self).ext@,
                TddNodeData::Extended(e) => e == old(self).ext@.len() && final(self).ext@ == old(self).ext@.push(ExtMulti { start: start as u64, len: len as u64 }),
                _ => false,
            },
    {
        if start < HIGH_BIT as usize && len < HIGH_BIT as usize {
            TddNodeData::Multi { start: start as u32, len: len as u32 }
        } else {
            let e: usize = self.ext.len();
            self.ext.push(ExtMulti { start: start as u64, len: len as u64 });
            TddNodeData::Extended(e)
        }
    }

    /// The lists of two states agree wherever the nodes do and the arena kept
    /// what they name.
    pub proof fn lemma_same_node(self, other: TddLevel, i: int)
        requires
            0 <= i < self.nodes@.len(),
            0 <= i < other.nodes@.len(),
            self.node_wf(i),
            self.nodes@[i] == other.nodes@[i],
            self.nodes@[i] matches TddNodeData::Extended(e) ==> e < other.ext@.len()
                && self.ext@[e as int] == other.ext@[e as int],
            self.start_at(i) + self.len_at(i) <= other.pairs@.len(),
            forall|k: int|
                self.start_at(i) <= k < self.start_at(i) + self.len_at(i) ==> #[trigger] self.pairs@[k]
                    == other.pairs@[k],
        ensures
            other.node_wf(i),
            other.pairs_at(i) == self.pairs_at(i),
            other.start_at(i) == self.start_at(i),
            other.len_at(i) == self.len_at(i),
    {
        assert(other.pairs_at(i) =~= self.pairs_at(i));
    }

    /// The lists depend on the nodes and the arena alone.
    pub proof fn lemma_same_arena(self, other: TddLevel)
        requires
            self.arena_wf(),
            self.nodes == other.nodes,
            self.pairs == other.pairs,
            self.ext == other.ext,
        ensures
            other.arena_wf(),
            forall|i: int| #[trigger] other.pairs_at(i) == self.pairs_at(i),
    {
        assert forall|i: int| 0 <= i < other.nodes@.len() implies #[trigger] other.node_wf(i) by {
            assert(self.node_wf(i));
        }
        assert forall|a: int, b: int|
            0 <= a < other.nodes@.len() && 0 <= b < other.nodes@.len() && a
                != b implies #[trigger] other.apart(a, b) by {
            assert(self.apart(a, b));
        }
    }

    /// Append a node with the given pair list.
    pub fn push_internal_node(&mut self, list: &[InputPair]) -> (r: LocalNodeIdx)
        requires
            old(self).arena_wf(),
            list@.len() >= 1,
            old(self).nodes@.len() + 1 < ZERO_RAW,
            old(self).pairs@.len() + list@.len() <= usize::MAX,
        ensures
            final(self).arena_wf(),
            r.0 == old(self).nodes@.len(),
            final(self).nodes@.len() == old(self).nodes@.len() + 1,
            final(self).pairs_at(r.0 as int) == list@,
            !(final(self).nodes@[r.0 as int] is Tombstone),
            forall|i: int|
                0 <= i < old(self).nodes@.len() ==> #[trigger] final(self).pairs_at(i) == old(self).pairs_at(i) && final(self).nodes@[i] == old(self).nodes@[i],
            final(self).same_store(*old(self)),
            final(self).same_flags(*old(self)),
            final(self).dead_pairs == old(self).dead_pairs,
            final(self).pairs@.len() <= old(self).pairs@.len() + list@.len(),
    {
        let idx = LocalNodeIdx(self.nodes.len() as u32);
        let ghost before = *self;
        if list.len() == 1 && list[0].can_inline() {
            self.nodes.push(TddNodeData::Inline(list[0]));
            proof {
                assert(self.pairs_at(idx.0 as int) =~= list@);
            }
        } else {
            let start: usize = self.pairs.len();
            let mut k: usize = 0;
            while k < list.len()
                invariant
                    0 <= k <= list@.len(),
                    start == before.pairs@.len(),
                    self.pairs@ == before.pairs@ + list@.take(k as int),
                    self.nodes == before.nodes,
                    self.ext == before.ext,
                    self.same_store(before),
                    self.same_flags(before),
                    self.dead_pairs == before.dead_pairs,
                decreases list@.len() - k,
            {
                self.pairs.push(list[k]);
                assert(list@.take(k + 1) =~= list@.take(k as int).push(list@[k as int]));
                k += 1;
            }
            assert(list@.take(list@.len() as int) =~= list@);
            let len: usize = list.len();
            let node = if len == 1 {
                let e: usize = self.ext.len();
                self.ext.push(ExtMulti { start: start as u64, len: 1 });
                TddNodeData::Extended(e)
            } else {
                self.encode_multi(start, len)
            };
            self.nodes.push(node);
            proof {
                assert(self.pairs_at(idx.0 as int) =~= list@);
            }
        }
        proof {
            assert forall|i: int| 0 <= i < before.nodes@.len() implies #[trigger] self.pairs_at(i)
                == before.pairs_at(i) && self.nodes@[i] == before.nodes@[i] && self.node_wf(i)
                && self.start_at(i) == before.start_at(i) && self.len_at(i) == before.len_at(
                i,
            ) by {
                assert(before.node_wf(i));
                before.lemma_same_node(*self, i);
            }
            assert forall|i: int| 0 <= i < self.nodes@.len() implies #[trigger] self.node_wf(i) by {
                if i < before.nodes@.len() {
                    assert(self.pairs_at(i) == before.pairs_at(i));
                }
            }
            assert forall|i: int, j: int|
                0 <= i < self.nodes@.len() && 0 <= j < self.nodes@.len() && i
                    != j implies #[trigger] self.apart(i, j) by {
                if i < before.nodes@.len() {
                    assert(before.node_wf(i));
                    assert(self.pairs_at(i) == before.pairs_at(i));
                }
                if j < before.nodes@.len() {
                    assert(before.node_wf(j));
                    assert(self.pairs_at(j) == before.pairs_at(j));
                }
                if i < before.nodes@.len() && j < before.nodes@.len() {
                    assert(before.apart(i, j));
                }
            }
        }
        idx
    }

    /// Overwrite pair `k` of a node that names an arena range.
    pub fn write_pair(&mut self, i: usize, k: usize, p: InputPair)
        requires
            old(self).arena_wf(),
            i < old(self).nodes@.len(),
            old(self).in_arena(i as int),
            k < old(self).len_at(i as int),
        ensures
            final(self).arena_wf(),
            *final(self) == (TddLevel { pairs: final(self).pairs, ..*old(self) }),
            final(self).pairs@.len() == old(self).pairs@.len(),
            final(self).pairs_at(i as int) == old(self).pairs_at(i as int).update(k as int, p),
            forall|j: int|
                0 <= j < old(self).nodes@.len() && j != i ==> #[trigger] final(self).pairs_at(j)
                    == old(self).pairs_at(j),
    {
        let start: usize = self.multi_start_at(i);
        let ghost before = *self;
        assert(before.node_wf(i as int));
        self.pairs.set(start + k, p);
        proof {
            assert(self.pairs_at(i as int) =~= before.pairs_at(i as int).update(k as int, p));
            assert forall|j: int| 0 <= j < before.nodes@.len() && j != i implies #[trigger] self.pairs_at(j)
                == before.pairs_at(j) by {
                assert(before.node_wf(j));
                assert(before.apart(i as int, j));
                before.lemma_same_node(*self, j);
            }
            assert forall|j: int| 0 <= j < self.nodes@.len() implies #[trigger] self.node_wf(j) by {
                assert(before.node_wf(j));
            }
            assert forall|a: int, b: int|
                0 <= a < self.nodes@.len() && 0 <= b < self.nodes@.len() && a
                    != b implies #[trigger] self.apart(a, b) by {
                assert(before.apart(a, b));
            }
        }
    }

    /// Re-encode node `i` after its list was compacted onto the first
    /// `new_len` slots of its range: shorten the range, carry a sole pair in
    /// the node itself, or alias it by a side-list entry. Returns the number
    /// of arena slots the node gave up.
    pub fn reencode_shrunk_multi(&mut self, limits: &mut ApplyLimits, i: usize, new_len: usize) -> (r:
        Result<usize, ApplyError>)
        requires
            old(self).arena_wf(),
            i < old(self).nodes@.len(),
            old(self).in_arena(i as int),
            new_len <= old(self).len_at(i as int),
        ensures
            carried(*old(limits), *final(limits)),
            final(self).same_store(*old(self)),
            final(self).same_flags(*old(self)),
            final(self).dead_pairs == old(self).dead_pairs,
            final(self).pairs@ == old(self).pairs@,
            final(self).nodes@.len() == old(self).nodes@.len(),
            final(self).arena_wf(),
            forall|j: int|
                0 <= j < old(self).nodes@.len() && j != i ==> #[trigger] final(self).pairs_at(j)
                    == old(self).pairs_at(j) && final(self).nodes@[j] == old(self).nodes@[j],
            !(final(self).nodes@[i as int] is Tombstone),
            new_len != 1 ==> r is Ok,
            r is Err ==> final(self).pairs_at(i as int) == old(self).pairs_at(i as int)
                && r->Err_0 == ApplyError::OverBudget && denied(*final(limits)),
            r matches Ok(dead) ==> {
                &&& final(self).pairs_at(i as int) == old(self).pairs_at(i as int).take(
                    new_len as int,
                )
                &&& dead == old(self).len_at(i as int) - final(self).len_at(i as int)
            },
    {
        let ghost before = *self;
        let old_len: usize = self.arena_pairs_at(i);
        let start: usize = self.multi_start_at(i);
        assert(before.node_wf(i as int));
        let mut dead: usize = old_len - new_len;
        if new_len == old_len {
            assert(self.pairs_at(i as int) =~= before.pairs_at(i as int).take(new_len as int));
            return Ok(0);
        }
        if new_len == 1 && self.pairs[start].can_inline() {
            self.nodes.set(i, TddNodeData::Inline(self.pairs[start]));
            dead = old_len;
            assert(self.pairs_at(i as int) =~= before.pairs_at(i as int).take(1));
        } else {
            match self.nodes[i] {
                TddNodeData::Extended(x) => {
                    self.ext.set(x, ExtMulti { start: start as u64, len: new_len as u64 });
                },
                _ => {
                    if new_len == 1 {
                        let x: usize = self.ext.len();
                        match try_push(
                            limits,
                            &mut self.ext,
                            ExtMulti { start: start as u64, len: 1 },
                        ) {
                            Ok(()) => {},
                            Err(e) => {
                                proof {
                                    assert forall|j: int|
                                        0 <= j < before.nodes@.len() implies #[trigger] self.pairs_at(j)
                                        == before.pairs_at(j) by {
                                        assert(before.node_wf(j));
                                        before.lemma_same_node(*self, j);
                                    }
                                    assert forall|j: int|
                                        0 <= j < self.nodes@.len() implies #[trigger] self.node_wf(
                                        j,
                                    ) by {
                                        assert(before.node_wf(j));
                                    }
                                    assert forall|a: int, b: int|
                                        0 <= a < self.nodes@.len() && 0 <= b < self.nodes@.len()
                                            && a != b implies #[trigger] self.apart(a, b) by {
                                        assert(before.apart(a, b));
                                        assert(before.node_wf(a));
                                        assert(before.node_wf(b));
                                    }
                                }
                                return Err(e);
                            },
                        }
                        self.nodes.set(i, TddNodeData::Extended(x));
                    } else {
                        self.nodes.set(
                            i,
                            TddNodeData::Multi { start: start as u32, len: new_len as u32 },
                        );
                    }
                },
            }
            assert(self.start_at(i as int) == start);
            assert(self.len_at(i as int) == new_len);
            assert(self.pairs_at(i as int) =~= before.pairs_at(i as int).take(new_len as int));
        }
        proof {
            assert forall|j: int| 0 <= j < before.nodes@.len() && j != i implies #[trigger] self.pairs_at(j)
                == before.pairs_at(j) && self.node_wf(j) && self.nodes@[j] == before.nodes@[j]
                && self.start_at(j) == before.start_at(j) && self.len_at(j) == before.len_at(j) by {
                assert(before.node_wf(j));
                assert(before.apart(i as int, j));
                before.lemma_same_node(*self, j);
            }
            assert forall|j: int| 0 <= j < self.nodes@.len() implies #[trigger] self.node_wf(j) by {
                if j != i {
                    assert(self.pairs_at(j) == before.pairs_at(j));
                }
            }
            assert forall|a: int, b: int|
                0 <= a < self.nodes@.len() && 0 <= b < self.nodes@.len() && a
                    != b implies #[trigger] self.apart(a, b) by {
                assert(before.apart(a, b));
                assert(before.node_wf(a));
                assert(before.node_wf(b));
                if a != i {
                    assert(self.pairs_at(a) == before.pairs_at(a));
                }
                if b != i {
                    assert(self.pairs_at(b) == before.pairs_at(b));
                }
            }
        }
        Ok(dead)
    }

    /// Appending to the arena and the side list leaves every list as it was.
    pub proof fn lemma_appended(self, other: TddLevel)
        requires
            self.arena_wf(),
            other.nodes == self.nodes,
            self.pairs@.len() <= other.pairs.len(),
            other.pairs@.take(self.pairs@.len() as int) == self.pairs@,
            self.ext@.len() <= other.ext@.len(),
            other.ext@.take(self.ext@.len() as int) == self.ext@,
        ensures
            other.arena_wf(),
            forall|j: int|
                0 <= j < self.nodes@.len() ==> #[trigger] other.pairs_at(j) == self.pairs_at(j),
            forall|j: int|
                0 <= j < self.nodes@.len() ==> #[trigger] other.start_at(j) == self.start_at(j)
                    && other.len_at(j) == self.len_at(j),
    {
        assert forall|k: int| 0 <= k < self.pairs@.len() implies #[trigger] self.pairs@[k]
            == other.pairs@[k] by {
            assert(other.pairs@.take(self.pairs@.len() as int)[k] == other.pairs@[k]);
        }
        assert forall|k: int| 0 <= k < self.ext@.len() implies #[trigger] self.ext@[k]
            == other.ext@[k] by {
            assert(other.ext@.take(self.ext@.len() as int)[k] == other.ext@[k]);
        }
        assert forall|j: int| 0 <= j < self.nodes@.len() implies #[trigger] other.pairs_at(j)
            == self.pairs_at(j) && other.node_wf(j) && other.start_at(j) == self.start_at(j)
            && other.len_at(j) == self.len_at(j) by {
            assert(self.node_wf(j));
            self.lemma_same_node(other, j);
        }
        assert forall|j: int| 0 <= j < other.nodes@.len() implies #[trigger] other.node_wf(j) by {
            assert(other.pairs_at(j) == self.pairs_at(j));
        }
        assert forall|j: int| 0 <= j < self.nodes@.len() implies #[trigger] other.start_at(j)
            == self.start_at(j) && other.len_at(j) == self.len_at(j) by {
            assert(other.pairs_at(j) == self.pairs_at(j));
        }
        assert forall|a: int, b: int|
            0 <= a < other.nodes@.len() && 0 <= b < other.nodes@.len() && a
                != b implies #[trigger] other.apart(a, b) by {
            assert(self.apart(a, b));
            assert(other.start_at(a) == self.start_at(a));
            assert(other.start_at(b) == self.start_at(b));
        }
    }

    /// Replace the list of node `i`, which names an arena range, by a shorter
    /// one. Where the memory cannot be had, every list is as it was.
    pub fn replace_list(&mut self, limits: &mut ApplyLimits, i: usize, list: &Vec<InputPair>) -> (r:
        Result<(), ApplyError>)
        requires
            old(self).arena_wf(),
            i < old(self).nodes@.len(),
            old(self).in_arena(i as int),
            1 <= list@.len() < old(self).len_at(i as int),
        ensures
            carried(*old(limits), *final(limits)),
            final(self).arena_wf(),
            final(self).nodes@.len() == old(self).nodes@.len(),
            final(self).same_store(*old(self)),
            final(self).same_flags(*old(self)),
            forall|j: int|
                0 <= j < old(self).nodes@.len() && j != i ==> #[trigger] final(self).pairs_at(j)
                    == old(self).pairs_at(j) && final(self).nodes@[j] == old(self).nodes@[j],
            !(final(self).nodes@[i as int] is Tombstone),
            list@.len() >= 2 || list@[0].inlinable() ==> r is Ok,
            match r {
                Ok(_) => final(self).pairs_at(i as int) == list@,
                Err(e) => e == ApplyError::OverBudget && denied(*final(limits)) && final(self).pairs_at(i as int) == old(self).pairs_at(i as int),
            },
    {
        let ghost before = *self;
        let old_len: usize = self.arena_pairs_at(i);
        assert(before.node_wf(i as int));
        if list.len() == 1 {
            let p = list[0];
            if p.can_inline() {
                self.nodes.set(i, TddNodeData::Inline(p));
                assert(self.pairs_at(i as int) =~= list@);
            } else {
                let start: usize = self.pairs.len();
                if let Err(e) = try_push(limits, &mut self.pairs, p) {
                    proof {
                        assert(self.pairs@.take(before.pairs@.len() as int) =~= before.pairs@);
                        assert(self.ext@.take(before.ext@.len() as int) =~= before.ext@);
                        before.lemma_appended(*self);
                    }
                    return Err(e);
                }
                let x: usize = self.ext.len();
                if let Err(e) = try_push(
                    limits,
                    &mut self.ext,
                    ExtMulti { start: start as u64, len: 1 },
                ) {
                    proof {
                        assert(self.pairs@.take(before.pairs@.len() as int) =~= before.pairs@);
                        assert(self.ext@.take(before.ext@.len() as int) =~= before.ext@);
                        before.lemma_appended(*self);
                    }
                    return Err(e);
                }
                let ghost mid = *self;
                proof {
                    assert(mid.pairs@.take(before.pairs@.len() as int) =~= before.pairs@);
                    assert(mid.ext@.take(before.ext@.len() as int) =~= before.ext@);
                    before.lemma_appended(mid);
                }
                self.nodes.set(i, TddNodeData::Extended(x));
                assert(self.pairs_at(i as int) =~= list@);
                proof {
                    assert forall|j: int| 0 <= j < before.nodes@.len() && j != i implies #[trigger]
                    self.pairs_at(j) == mid.pairs_at(j) by {
                        assert(before.node_wf(j));
                        assert(mid.pairs_at(j) == before.pairs_at(j));
                    }
                }
            }
            let ghost mid = *self;
            self.note_dead_pairs(old_len);
            proof {
                assert forall|j: int| 0 <= j < before.nodes@.len() && j != i implies #[trigger] self.pairs_at(j)
                    == before.pairs_at(j) && self.node_wf(j) && self.start_at(j) == before.start_at(
                    j,
                ) && self.len_at(j) == before.len_at(j) && self.nodes@[j] == before.nodes@[j] by {
                    assert(before.node_wf(j));
                    before.lemma_same_node(*self, j);
                }
                assert(self.pairs_at(i as int) == mid.pairs_at(i as int));
                assert forall|j: int| 0 <= j < self.nodes@.len() implies #[trigger] self.node_wf(j) by {
                    if j != i {
                        assert(self.pairs_at(j) == before.pairs_at(j));
                    }
                }
                assert forall|a: int, b: int|
                    0 <= a < self.nodes@.len() && 0 <= b < self.nodes@.len() && a
                        != b implies #[trigger] self.apart(a, b) by {
                    assert(before.apart(a, b));
                    assert(before.node_wf(a));
                    assert(before.node_wf(b));
                    if a != i {
                        assert(self.pairs_at(a) == before.pairs_at(a));
                    }
                    if b != i {
                        assert(self.pairs_at(b) == before.pairs_at(b));
                    }
                }
            }
            return Ok(());
        }
        let mut k: usize = 0;
        assert(list@.take(0) + before.pairs_at(i as int).skip(0) =~= before.pairs_at(i as int));
        while k < list.len()
            invariant
                before.arena_wf(),
                self.arena_wf(),
                *self == (TddLevel { pairs: self.pairs, ..before }),
                i < before.nodes@.len(),
                before.in_arena(i as int),
                list@.len() < before.len_at(i as int),
                before.pairs_at(i as int).len() == before.len_at(i as int),
                0 <= k <= list@.len(),
                self.pairs_at(i as int) == list@.take(k as int) + before.pairs_at(i as int).skip(
                    k as int,
                ),
                forall|j: int|
                    0 <= j < before.nodes@.len() && j != i ==> #[trigger] self.pairs_at(j)
                        == before.pairs_at(j),
            decreases list@.len() - k,
        {
            self.write_pair(i, k, list[k]);
            assert(self.pairs_at(i as int) =~= list@.take(k + 1) + before.pairs_at(i as int).skip(
                k + 1,
            ));
            k += 1;
        }
        let ghost mid = *self;
        assert(mid.pairs_at(i as int).take(list@.len() as int) =~= list@);
        match self.reencode_shrunk_multi(limits, i, list.len()) {
            Ok(dead) => {
                let ghost done = *self;
                self.note_dead_pairs(dead);
                proof {
                    done.lemma_same_arena(*self);
                    assert forall|j: int| 0 <= j < before.nodes@.len() && j != i implies #[trigger]
                    self.pairs_at(j) == before.pairs_at(j) && self.nodes@[j] == before.nodes@[j] by {
                        assert(done.pairs_at(j) == mid.pairs_at(j));
                    }
                }
                Ok(())
            },
            Err(e) => Err(e),
        }
    }

    /// Arena slots that the first `k` nodes name.
    pub open spec fn live(self, k: int) -> nat
        decreases k,
    {
        if k <= 0 {
            0
        } else {
            (self.live(k - 1) + self.len_at(k - 1)) as nat
        }
    }

    /// Whether the dead slots are many and outnumber the others.
    pub open spec fn stale(self) -> bool {
        self.dead_pairs >= Self::PAIRS_COMPACT_MIN_DEAD && self.dead_pairs > self.pairs@.len() / 2
    }

    /// Sweep the arena if it is stale: afterwards it holds exactly the pairs
    /// that nodes name. Every node keeps its list, in order.
    #[verifier::spinoff_prover]
    pub fn compact_pairs_if_stale(&mut self) -> (swept: bool)
        requires
            old(self).arena_wf(),
        ensures
            final(self).arena_wf(),
            swept == old(self).stale(),
            !swept ==> *final(self) == *old(self),
            swept ==> final(self).dead_pairs == 0 && final(self).pairs@.len() == final(self).live(
                final(self).nodes@.len() as int,
            ),
            final(self).nodes@.len() == old(self).nodes@.len(),
            forall|i: int|
                0 <= i < old(self).nodes@.len() ==> #[trigger] final(self).pairs_at(i) == old(self).pairs_at(i) && (final(self).nodes@[i] is Tombstone <==> old(self).nodes@[i] is Tombstone),
            final(self).same_store(*old(self)),
            final(self).same_flags(*old(self)),
    {
        if self.dead_pairs < Self::PAIRS_COMPACT_MIN_DEAD || self.dead_pairs <= self.pairs.len()
            / 2 {
            return false;
        }
        let ghost before = *self;
        let n: usize = self.nodes.len();
        let mut fresh = TddLevel::new();
        let mut i: usize = 0;
        while i < n
            invariant
                *self == before,
                before.arena_wf(),
                n == before.nodes@.len(),
                0 <= i <= n,
                fresh.arena_wf(),
                fresh.nodes@.len() == i,
                fresh.pairs@.len() == fresh.live(i as int),
                forall|j: int|
                    0 <= j < i ==> #[trigger] fresh.pairs_at(j) == before.pairs_at(j) && (
                    fresh.nodes@[j] is Tombstone <==> before.nodes@[j] is Tombstone),
            decreases n - i,
        {
            assert(before.node_wf(i as int));
            let ghost prior = fresh;
            match self.nodes[i] {
                TddNodeData::Multi { .. } | TddNodeData::Extended(_) => {
                    let start: usize = fresh.pairs.len();
                    let from: usize = self.multi_start_at(i);
                    let len: usize = self.arena_pairs_at(i);
                    let ghost list = before.pairs_at(i as int);
                    let mut k: usize = 0;
                    while k < len
                        invariant
                            0 <= k <= len,
                            *self == before,
                            from + len <= before.pairs.len(),
                            list == before.pairs@.subrange(from as int, from + len),
                            start == prior.pairs@.len(),
                            fresh.pairs@ == prior.pairs@ + list.take(k as int),
                            fresh.nodes == prior.nodes,
                            fresh.ext == prior.ext,
                        decreases len - k,
                    {
                        fresh.pairs.push(self.pairs[from + k]);
                        assert(list.take(k + 1) =~= list.take(k as int).push(list[k as int]));
                        assert(fresh.pairs@ =~= prior.pairs@ + list.take(k + 1));
                        k += 1;
                    }
                    assert(list.take(len as int) =~= list);
                    let node = fresh.encode_multi(start, len);
                    fresh.nodes.push(node);
                    assert(fresh.pairs_at(i as int) =~= list);
                },
                node => {
                    fresh.nodes.push(node);
                    assert(fresh.pairs_at(i as int) =~= before.pairs_at(i as int));
                },
            }
            proof {
                assert forall|j: int| 0 <= j < prior.nodes@.len() implies #[trigger] fresh.pairs_at(j)
                    == prior.pairs_at(j) && fresh.nodes@[j] == prior.nodes@[j] && fresh.node_wf(j)
                    && fresh.start_at(j) == prior.start_at(j) && fresh.len_at(j) == prior.len_at(
                    j,
                ) by {
                    assert(prior.node_wf(j));
                    prior.lemma_same_node(fresh, j);
                }
                assert forall|j: int| 0 <= j <= i implies #[trigger] fresh.pairs_at(j)
                    == before.pairs_at(j) && (fresh.nodes@[j] is Tombstone <==> before.nodes@[j] is
                Tombstone) by {
                    if j < i {
                        assert(prior.pairs_at(j) == before.pairs_at(j));
                    }
                }
                assert forall|j: int| 0 <= j < i implies #[trigger] prior.len_at(j) == fresh.len_at(
                    j,
                ) by {
                    assert(fresh.pairs_at(j) == prior.pairs_at(j));
                }
                lemma_live_same(prior, fresh, i as int);
                assert forall|j: int| 0 <= j < fresh.nodes@.len() implies #[trigger] fresh.node_wf(
                    j,
                ) by {
                    if j < prior.nodes@.len() {
                        assert(fresh.pairs_at(j) == prior.pairs_at(j));
                    }
                }
                assert forall|a: int, b: int|
                    0 <= a < fresh.nodes@.len() && 0 <= b < fresh.nodes@.len() && a
                        != b implies #[trigger] fresh.apart(a, b) by {
                    if a < prior.nodes@.len() {
                        assert(prior.node_wf(a));
                        assert(fresh.pairs_at(a) == prior.pairs_at(a));
                    }
                    if b < prior.nodes@.len() {
                        assert(prior.node_wf(b));
                        assert(fresh.pairs_at(b) == prior.pairs_at(b));
                    }
                    if a < prior.nodes@.len() && b < prior.nodes@.len() {
                        assert(prior.apart(a, b));
                    }
                }
            }
            i += 1;
        }
        self.nodes = fresh.nodes;
        self.pairs = fresh.pairs;
        self.ext = fresh.ext;
        self.dead_pairs = 0;
        proof {
            assert forall|j: int| 0 <= j < self.nodes@.len() implies #[trigger] self.pairs_at(j)
                == fresh.pairs_at(j) && self.node_wf(j) && self.len_at(j) == fresh.len_at(j)
                && self.start_at(j) == fresh.start_at(j) by {
                assert(fresh.node_wf(j));
            }
            assert forall|j: int| 0 <= j < self.nodes@.len() implies #[trigger] self.node_wf(j) by {
                assert(self.pairs_at(j) == fresh.pairs_at(j));
            }
            assert forall|a: int, b: int|
                0 <= a < self.nodes@.len() && 0 <= b < self.nodes@.len() && a
                    != b implies #[trigger] self.apart(a, b) by {
                assert(fresh.apart(a, b));
            }
            lemma_live_same(fresh, *self, n as int);
        }
        true
    }

    /// Give the room of the arrays back where there is much to spare.
    pub fn shrink_arrays(&mut self)
        ensures
            final(self).nodes@ == old(self).nodes@,
            final(self).pairs@ == old(self).pairs@,
            final(self).ext@ == old(self).ext@,
            final(self).same_store(*old(self)),
            final(self).same_flags(*old(self)),
            final(self).dead_pairs == old(self).dead_pairs,
    {
        if has_slack(self.nodes.len(), vec_capacity(&self.nodes)) {
            vec_shrink_to_fit(&mut self.nodes);
        }
        if has_slack(self.pairs.len(), vec_capacity(&self.pairs)) {
            vec_shrink_to_fit(&mut self.pairs);
        }
        if has_slack(self.ext.len(), vec_capacity(&self.ext)) {
            vec_shrink_to_fit(&mut self.ext);
        }
    }
}

/// The live slots of nodes with equal lengths are equally many.
proof fn lemma_live_same(a: TddLevel, b: TddLevel, k: int)
    requires
        0 <= k <= a.nodes@.len(),
        k <= b.nodes@.len(),
        forall|j: int| 0 <= j < k ==> #[trigger] a.len_at(j) == b.len_at(j),
    ensures
        a.live(k) == b.live(k),
    decreases k,
{
    if k > 0 {
        lemma_live_same(a, b, k - 1);
        assert(a.len_at(k - 1) == b.len_at(k - 1));
    }
}

} // verus!
