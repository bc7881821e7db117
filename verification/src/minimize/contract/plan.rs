//! Deciding what to do with each group of twins, before anything is changed.
//!
//! Twins whose lists share no pair are concatenated. At a level whose lists
//! may repeat pairs all of a group is. Elsewhere the members are taken
//! greedily as long as they stay disjoint; a member with the very list of the
//! first is instead redirected onto it, where the parent's lists can carry the
//! repetition.

use crate::fx::{pair_set_clear, pair_set_contains, pair_set_insert};
use crate::level::{InputPair, TddLevel};
use rustc_hash::FxHashSet;
use vstd::prelude::*;

verus! {

/// What is done with one group of twins.
#[derive(Clone, Copy, Debug, PartialEq, Eq, Structural)]
pub enum GroupAction {
    /// Concatenate the members' lists into the first.
    Concat,
    /// Redirect the members onto the first, whose list equals theirs.
    DupRedirect,
}

/// One decided group: the range of the selected members, survivor first.
#[derive(Clone, Copy, Debug)]
pub struct GroupPlan {
    pub action: GroupAction,
    pub start: usize,
    pub end: usize,
}

/// What the decision depends on besides the lists.
#[derive(Clone, Copy, Debug, PartialEq, Eq, Structural)]
pub struct MergePolicy {
    /// Whether lists of this level may repeat pairs.
    pub concat_all: bool,
    /// Whether the parent's lists may.
    pub parent_marg: bool,
    /// Whether redirections come before concatenations in a mixed group.
    pub fold_allow: bool,
}

/// A pair as a key.
pub open spec fn pair_key(p: InputPair) -> (u32, u32) {
    (p.left.0, p.right.0)
}

/// A list as keys.
pub open spec fn keys(list: Seq<InputPair>) -> Seq<(u32, u32)> {
    list.map_values(|p: InputPair| pair_key(p))
}

/// Whether some key of `ks` is in `seen`.
pub open spec fn overlaps(ks: Seq<(u32, u32)>, seen: Set<(u32, u32)>) -> bool {
    exists|k: int| 0 <= k < ks.len() && seen.contains(#[trigger] ks[k])
}

/// The state of the greedy choice.
pub struct Greedy {
    /// Members with pairwise disjoint lists, the first of the group first.
    pub filtered: Seq<u32>,
    /// Members whose list is that of the first.
    pub dups: Seq<u32>,
    /// The pairs of the members in `filtered`.
    pub seen: Set<(u32, u32)>,
}

/// The greedy choice over the first `k` members.
pub open spec fn greedy(level: TddLevel, group: Seq<u32>, parent_marg: bool, k: int) -> Greedy
    decreases k,
{
    if k <= 1 {
        Greedy {
            filtered: seq![group[0]],
            dups: Seq::empty(),
            seen: keys(level.pairs_at(group[0] as int)).to_set(),
        }
    } else {
        let g = greedy(level, group, parent_marg, k - 1);
        let ks = keys(level.pairs_at(group[k - 1] as int));
        if !overlaps(ks, g.seen) {
            Greedy {
                filtered: g.filtered.push(group[k - 1]),
                dups: g.dups,
                seen: g.seen.union(ks.to_set()),
            }
        } else if parent_marg && ks.to_multiset() == keys(
            level.pairs_at(group[0] as int),
        ).to_multiset() {
            Greedy { filtered: g.filtered, dups: g.dups.push(group[k - 1]), seen: g.seen }
        } else {
            g
        }
    }
}

/// The action on a group and the members it acts on; `None` where nothing can
/// be done with it.
pub open spec fn decide(level: TddLevel, group: Seq<u32>, pol: MergePolicy) -> Option<
    (GroupAction, Seq<u32>),
> {
    if pol.concat_all {
        Some((GroupAction::Concat, group))
    } else {
        let g = greedy(level, group, pol.parent_marg, group.len() as int);
        if g.dups.len() > 0 && (g.filtered.len() < 2 || pol.fold_allow) {
            Some((GroupAction::DupRedirect, seq![group[0]] + g.dups))
        } else if g.filtered.len() >= 2 {
            Some((GroupAction::Concat, g.filtered))
        } else {
            None
        }
    }
}

/// End of group `g` in the flat member list.
pub open spec fn group_end(flat: Seq<u32>, starts: Seq<u32>, g: int) -> int {
    if g + 1 < starts.len() {
        starts[g + 1] as int
    } else {
        flat.len() as int
    }
}

/// The members of group `g`.
pub open spec fn group_at(flat: Seq<u32>, starts: Seq<u32>, g: int) -> Seq<u32> {
    flat.subrange(starts[g] as int, group_end(flat, starts, g))
}

/// Groups of at least two nodes each, no node in two of them.
pub open spec fn groups_wf(flat: Seq<u32>, starts: Seq<u32>, width: int) -> bool {
    &&& forall|g: int|
        0 <= g < starts.len() ==> (#[trigger] starts[g]) + 2 <= group_end(flat, starts, g)
            <= flat.len()
    &&& forall|a: int, b: int| 0 <= a < b < flat.len() ==> flat[a] != flat[b]
    &&& forall|a: int| 0 <= a < flat.len() ==> #[trigger] flat[a] < width
}

/// One decided group.
pub struct PlanSpec {
    /// The group it comes from.
    pub g: int,
    pub action: GroupAction,
    /// The members it acts on, survivor first.
    pub members: Seq<u32>,
}

/// The decisions on the first `k` groups.
pub open spec fn plans(
    level: TddLevel,
    flat: Seq<u32>,
    starts: Seq<u32>,
    pol: MergePolicy,
    k: int,
) -> Seq<PlanSpec>
    decreases k,
{
    if k <= 0 {
        Seq::empty()
    } else {
        let rest = plans(level, flat, starts, pol, k - 1);
        match decide(level, group_at(flat, starts, k - 1), pol) {
            Some((action, members)) => rest.push(PlanSpec { g: k - 1, action, members }),
            None => rest,
        }
    }
}

/// The greedy choice takes members in order, each at most once.
proof fn lemma_greedy(level: TddLevel, group: Seq<u32>, parent_marg: bool, k: int)
    requires
        1 <= k <= group.len(),
        forall|a: int, b: int| 0 <= a < b < group.len() ==> group[a] != group[b],
    ensures
        ({
            let g = greedy(level, group, parent_marg, k);
            &&& g.filtered.len() >= 1
            &&& g.filtered[0] == group[0]
            &&& forall|x: int|
                0 <= x < g.filtered.len() ==> exists|a: int|
                    0 <= a < k && #[trigger] g.filtered[x] == #[trigger] group[a]
            &&& forall|x: int|
                0 <= x < g.dups.len() ==> exists|a: int|
                    1 <= a < k && #[trigger] g.dups[x] == #[trigger] group[a]
            &&& forall|x: int, y: int|
                0 <= x < y < g.filtered.len() ==> g.filtered[x] != g.filtered[y]
            &&& forall|x: int, y: int| 0 <= x < y < g.dups.len() ==> g.dups[x] != g.dups[y]
            &&& forall|x: int|
                0 <= x < g.dups.len() ==> keys(
                    level.pairs_at(#[trigger] g.dups[x] as int),
                ).to_multiset() == keys(level.pairs_at(group[0] as int)).to_multiset()
        }),
    decreases k,
{
    if k > 1 {
        lemma_greedy(level, group, parent_marg, k - 1);
        let g0 = greedy(level, group, parent_marg, k - 1);
        let g = greedy(level, group, parent_marg, k);
        assert forall|x: int| 0 <= x < g.filtered.len() implies exists|a: int|
            0 <= a < k && #[trigger] g.filtered[x] == #[trigger] group[a] by {
            if x < g0.filtered.len() {
                assert(g.filtered[x] == g0.filtered[x]);
                let a = choose|a: int| 0 <= a < k - 1 && g0.filtered[x] == #[trigger] group[a];
                assert(g.filtered[x] == group[a]);
            } else {
                assert(g.filtered[x] == group[k - 1]);
            }
        }
        assert forall|x: int| 0 <= x < g.dups.len() implies exists|a: int|
            1 <= a < k && #[trigger] g.dups[x] == #[trigger] group[a] by {
            if x < g0.dups.len() {
                assert(g.dups[x] == g0.dups[x]);
                let a = choose|a: int| 1 <= a < k - 1 && g0.dups[x] == #[trigger] group[a];
                assert(g.dups[x] == group[a]);
            } else {
                assert(g.dups[x] == group[k - 1]);
            }
        }
        assert forall|x: int, y: int| 0 <= x < y < g.filtered.len() implies g.filtered[x]
            != g.filtered[y] by {
            if y == g0.filtered.len() {
                let a = choose|a: int| 0 <= a < k - 1 && g0.filtered[x] == #[trigger] group[a];
                assert(g0.filtered[x] == group[a]);
            }
        }
        assert forall|x: int, y: int| 0 <= x < y < g.dups.len() implies g.dups[x]
            != g.dups[y] by {
            if y == g0.dups.len() {
                let a = choose|a: int| 1 <= a < k - 1 && g0.dups[x] == #[trigger] group[a];
                assert(g0.dups[x] == group[a]);
            }
        }
    } else {
        let g = greedy(level, group, parent_marg, k);
        assert(g.filtered[0] == group[0]);
    }
}

/// What holds of a decision: at least two members of the group, the first
/// first and none twice; and redirected members have the survivor's list.
pub open spec fn choice_ok(
    level: TddLevel,
    group: Seq<u32>,
    action: GroupAction,
    members: Seq<u32>,
) -> bool {
    &&& members.len() >= 2
    &&& members[0] == group[0]
    &&& forall|x: int|
        0 <= x < members.len() ==> exists|a: int|
            0 <= a < group.len() && #[trigger] members[x] == #[trigger] group[a]
    &&& forall|x: int, y: int| 0 <= x < y < members.len() ==> members[x] != members[y]
    &&& action == GroupAction::DupRedirect ==> forall|x: int|
        0 <= x < members.len() ==> keys(
            level.pairs_at(#[trigger] members[x] as int),
        ).to_multiset() == keys(level.pairs_at(members[0] as int)).to_multiset()
}

/// Every decision is of that kind.
pub proof fn lemma_decide(level: TddLevel, group: Seq<u32>, pol: MergePolicy)
    requires
        group.len() >= 2,
        forall|a: int, b: int| 0 <= a < b < group.len() ==> group[a] != group[b],
    ensures
        decide(level, group, pol) matches Some((action, members)) ==> choice_ok(
            level,
            group,
            action,
            members,
        ),
{
    if pol.concat_all {
        assert forall|x: int| 0 <= x < group.len() implies exists|a: int|
            0 <= a < group.len() && #[trigger] group[x] == #[trigger] group[a] by {
            assert(group[x] == group[x]);
        }
    } else {
        lemma_greedy(level, group, pol.parent_marg, group.len() as int);
        let g = greedy(level, group, pol.parent_marg, group.len() as int);
        let m = seq![group[0]] + g.dups;
        assert forall|x: int| 0 <= x < m.len() implies exists|a: int|
            0 <= a < group.len() && #[trigger] m[x] == #[trigger] group[a] by {
            if x == 0 {
                assert(m[x] == group[0]);
            } else {
                assert(m[x] == g.dups[x - 1]);
                let a = choose|a: int|
                    1 <= a < group.len() && g.dups[x - 1] == #[trigger] group[a];
                assert(m[x] == group[a]);
            }
        }
        assert forall|x: int, y: int| 0 <= x < y < m.len() implies m[x] != m[y] by {
            assert(m[y] == g.dups[y - 1]);
            if x == 0 {
                let a = choose|a: int|
                    1 <= a < group.len() && g.dups[y - 1] == #[trigger] group[a];
                assert(m[y] == group[a]);
            } else {
                assert(m[x] == g.dups[x - 1]);
            }
        }
        assert forall|x: int| 0 <= x < m.len() implies keys(
            level.pairs_at(#[trigger] m[x] as int),
        ).to_multiset() == keys(level.pairs_at(m[0] as int)).to_multiset() by {
            if x > 0 {
                assert(m[x] == g.dups[x - 1]);
            }
        }
    }
}

/// What holds of the decisions on all groups: each is of that kind, and no two
/// share a member.
pub open spec fn plans_ok(
    level: TddLevel,
    flat: Seq<u32>,
    starts: Seq<u32>,
    ps: Seq<PlanSpec>,
    k: int,
) -> bool {
    &&& forall|q: int|
        0 <= q < ps.len() ==> {
            &&& 0 <= (#[trigger] ps[q]).g < k
            &&& choice_ok(level, group_at(flat, starts, ps[q].g), ps[q].action, ps[q].members)
        }
    &&& forall|q: int, r: int| 0 <= q < r < ps.len() ==> ps[q].g < ps[r].g
}

/// The decisions are of that kind.
pub proof fn lemma_plans(
    level: TddLevel,
    flat: Seq<u32>,
    starts: Seq<u32>,
    pol: MergePolicy,
    k: int,
)
    requires
        0 <= k <= starts.len(),
        groups_wf(flat, starts, level.nodes@.len() as int),
    ensures
        plans_ok(level, flat, starts, plans(level, flat, starts, pol, k), k),
        plans(level, flat, starts, pol, k).len() <= k,
    decreases k,
{
    if k > 0 {
        lemma_plans(level, flat, starts, pol, k - 1);
        let group = group_at(flat, starts, k - 1);
        assert(starts[k - 1] + 2 <= group_end(flat, starts, k - 1));
        assert forall|a: int, b: int| 0 <= a < b < group.len() implies group[a] != group[b] by {
            assert(group[a] == flat[starts[k - 1] + a]);
            assert(group[b] == flat[starts[k - 1] + b]);
        }
        lemma_decide(level, group, pol);
    }
}

/// Later groups lie behind earlier ones.
proof fn lemma_group_order(flat: Seq<u32>, starts: Seq<u32>, a: int, b: int)
    requires
        0 <= a < b < starts.len(),
        forall|g: int|
            0 <= g < starts.len() ==> (#[trigger] starts[g]) + 2 <= group_end(flat, starts, g)
                <= flat.len(),
    ensures
        group_end(flat, starts, a) <= starts[b],
    decreases b - a,
{
    assert(starts[a] + 2 <= group_end(flat, starts, a));
    if b > a + 1 {
        lemma_group_order(flat, starts, a + 1, b);
        assert(starts[a + 1] + 2 <= group_end(flat, starts, a + 1));
    }
}

/// No node is a member of two decisions.
pub proof fn lemma_plans_disjoint(
    level: TddLevel,
    flat: Seq<u32>,
    starts: Seq<u32>,
    ps: Seq<PlanSpec>,
    q: int,
    r: int,
    x: int,
    y: int,
)
    requires
        groups_wf(flat, starts, level.nodes@.len() as int),
        plans_ok(level, flat, starts, ps, starts.len() as int),
        0 <= q < ps.len(),
        0 <= r < ps.len(),
        0 <= x < ps[q].members.len(),
        0 <= y < ps[r].members.len(),
        ps[q].members[x] == ps[r].members[y],
    ensures
        q == r,
        x == y,
        ps[q].members[x] < level.nodes@.len(),
{
    let gq = group_at(flat, starts, ps[q].g);
    let gr = group_at(flat, starts, ps[r].g);
    assert(choice_ok(level, gq, ps[q].action, ps[q].members));
    assert(choice_ok(level, gr, ps[r].action, ps[r].members));
    let a = choose|a: int| 0 <= a < gq.len() && ps[q].members[x] == #[trigger] gq[a];
    let b = choose|b: int| 0 <= b < gr.len() && ps[r].members[y] == #[trigger] gr[b];
    let sq = starts[ps[q].g] as int;
    let sr = starts[ps[r].g] as int;
    assert(sq + 2 <= group_end(flat, starts, ps[q].g) <= flat.len());
    assert(sr + 2 <= group_end(flat, starts, ps[r].g) <= flat.len());
    assert(gq[a] == flat[sq + a]);
    assert(gr[b] == flat[sr + b]);
    if q < r {
        lemma_group_order(flat, starts, ps[q].g, ps[r].g);
    } else if r < q {
        lemma_group_order(flat, starts, ps[r].g, ps[q].g);
    }
}

/// `slice::sort_unstable` on pairs of integers: the same elements, in
/// lexicographic order.
#[verifier::external_body]
pub(crate) fn sort_keys(v: &mut Vec<(u32, u32)>)
    ensures
        final(v)@.to_multiset() == old(v)@.to_multiset(),
        vstd::relations::sorted_by(final(v)@, |a: (u32, u32), b: (u32, u32)| key_leq(a, b)),
{
    v.sort_unstable();
}

/// Lexicographic order.
pub open spec fn key_leq(a: (u32, u32), b: (u32, u32)) -> bool {
    a.0 < b.0 || (a.0 == b.0 && a.1 <= b.1)
}

/// Sorted lists are equal exactly where the lists are, up to order.
pub proof fn lemma_sorted_eq(a: Seq<(u32, u32)>, b: Seq<(u32, u32)>, sa: Seq<(u32, u32)>, sb: Seq<
    (u32, u32),
>)
    requires
        sa.to_multiset() == a.to_multiset(),
        sb.to_multiset() == b.to_multiset(),
        vstd::relations::sorted_by(sa, |x: (u32, u32), y: (u32, u32)| key_leq(x, y)),
        vstd::relations::sorted_by(sb, |x: (u32, u32), y: (u32, u32)| key_leq(x, y)),
    ensures
        sa == sb <==> a.to_multiset() == b.to_multiset(),
{
    let leq = |x: (u32, u32), y: (u32, u32)| key_leq(x, y);
    assert(vstd::relations::total_ordering(leq));
    if a.to_multiset() == b.to_multiset() {
        vstd::seq_lib::lemma_sorted_unique(sa, sb, leq);
    }
}

pub(crate) fn keys_equal(a: &Vec<(u32, u32)>, b: &Vec<(u32, u32)>) -> (r: bool)
    ensures
        r == (a@ == b@),
{
    if a.len() != b.len() {
        return false;
    }
    let mut k: usize = 0;
    while k < a.len()
        invariant
            a@.len() == b@.len(),
            0 <= k <= a@.len(),
            forall|j: int| 0 <= j < k ==> a@[j] == b@[j],
        decreases a@.len() - k,
    {
        if a[k].0 != b[k].0 || a[k].1 != b[k].1 {
            assert(a@[k as int] != b@[k as int]);
            return false;
        }
        k += 1;
    }
    assert(a@ =~= b@);
    true
}

/// Working buffers of the planning pass. They carry room from call to call,
/// never contents.
pub struct MergeBuffers {
    pub resolve_keeps: Vec<u32>,
    pub filtered: Vec<u32>,
    pub dup_members: Vec<u32>,
    pub keep_pairs_sorted: Vec<(u32, u32)>,
    pub member_pairs: Vec<(u32, u32)>,
    pub seen_pairs: FxHashSet<(u32, u32)>,
    pub sel: Vec<u32>,
    pub group_plans: Vec<GroupPlan>,
}

impl MergeBuffers {
    /// Every buffer is empty.
    pub open spec fn empty(self) -> bool {
        &&& self.resolve_keeps@.len() == 0
        &&& self.filtered@.len() == 0
        &&& self.dup_members@.len() == 0
        &&& self.keep_pairs_sorted@.len() == 0
        &&& self.member_pairs@.len() == 0
        &&& self.seen_pairs@ == Set::<(u32, u32)>::empty()
        &&& self.sel@.len() == 0
        &&& self.group_plans@.len() == 0
    }

    /// Empty buffers.
    pub fn new() -> (r: MergeBuffers)
        ensures
            r.empty(),
    {
        MergeBuffers {
            resolve_keeps: Vec::new(),
            filtered: Vec::new(),
            dup_members: Vec::new(),
            keep_pairs_sorted: Vec::new(),
            member_pairs: Vec::new(),
            seen_pairs: crate::fx::pair_set_new(),
            sel: Vec::new(),
            group_plans: Vec::new(),
        }
    }

    /// Empty every buffer.
    pub fn clear(&mut self)
        ensures
            final(self).empty(),
    {
        self.resolve_keeps.clear();
        self.filtered.clear();
        self.dup_members.clear();
        self.keep_pairs_sorted.clear();
        self.member_pairs.clear();
        pair_set_clear(&mut self.seen_pairs);
        self.sel.clear();
        self.group_plans.clear();
    }
}

/// Write the keys of node `i` to `out`, and tell whether one is in `seen`.
fn collect_keys(
    level: &TddLevel,
    i: usize,
    seen: &FxHashSet<(u32, u32)>,
    out: &mut Vec<(u32, u32)>,
) -> (overlap: bool)
    requires
        level.arena_wf(),
        i < level.nodes@.len(),
    ensures
        final(out)@ == keys(level.pairs_at(i as int)),
        overlap == overlaps(keys(level.pairs_at(i as int)), seen@),
{
    let list = level.pairs_of_idx(i);
    let ghost ks = keys(level.pairs_at(i as int));
    out.clear();
    let mut overlap = false;
    let mut k: usize = 0;
    while k < list.len()
        invariant
            list@ == level.pairs_at(i as int),
            ks == keys(list@),
            0 <= k <= list@.len(),
            out@ == ks.take(k as int),
            overlap == overlaps(ks.take(k as int), seen@),
        decreases list@.len() - k,
    {
        let key: (u32, u32) = (list[k].left.0, list[k].right.0);
        assert(key == ks[k as int]);
        let hit = pair_set_contains(seen, key);
        assert(ks.take(k + 1) =~= ks.take(k as int).push(key));
        proof {
            if overlap {
                let j = choose|j: int|
                    0 <= j < ks.take(k as int).len() && seen@.contains(
                        #[trigger] ks.take(k as int)[j],
                    );
                assert(ks.take(k + 1)[j] == ks.take(k as int)[j]);
            }
            if hit {
                assert(ks.take(k + 1)[k as int] == key);
            }
            if overlaps(ks.take(k + 1), seen@) {
                let j = choose|j: int|
                    0 <= j < ks.take(k + 1).len() && seen@.contains(
                        #[trigger] ks.take(k + 1)[j],
                    );
                if j < k {
                    assert(ks.take(k as int)[j] == ks.take(k + 1)[j]);
                }
            }
        }
        overlap = overlap || hit;
        out.push(key);
        k += 1;
    }
    assert(ks.take(ks.len() as int) =~= ks);
    overlap
}

/// Add the keys in `ks` to `seen`.
fn absorb_keys(seen: &mut FxHashSet<(u32, u32)>, ks: &Vec<(u32, u32)>)
    ensures
        final(seen)@ == old(seen)@.union(ks@.to_set()),
{
    let ghost before = seen@;
    let mut k: usize = 0;
    while k < ks.len()
        invariant
            0 <= k <= ks@.len(),
            seen@ == before.union(ks@.take(k as int).to_set()),
        decreases ks@.len() - k,
    {
        pair_set_insert(seen, ks[k]);
        proof {
            let a = ks@.take(k as int);
            let b = ks@.take(k + 1);
            assert(b =~= a.push(ks@[k as int]));
            assert forall|x: (u32, u32)| seen@.contains(x) == before.union(b.to_set()).contains(
                x,
            ) by {
                if b.contains(x) {
                    let j = choose|j: int| 0 <= j < b.len() && b[j] == x;
                    if j < k {
                        assert(a[j] == x);
                    }
                }
                if a.contains(x) {
                    let j = choose|j: int| 0 <= j < a.len() && a[j] == x;
                    assert(b[j] == x);
                }
                assert(b[k as int] == ks@[k as int]);
            }
            assert(seen@ =~= before.union(b.to_set()));
        }
        k += 1;
    }
    assert(ks@.take(ks@.len() as int) =~= ks@);
}

/// Decide one group. The members that the action selects go behind `sel`.
fn decide_group(level: &TddLevel, group: &[u32], pol: MergePolicy, buf: &mut MergeBuffers) -> (r:
    Option<GroupAction>)
    requires
        level.arena_wf(),
        group@.len() >= 2,
        forall|a: int| 0 <= a < group@.len() ==> #[trigger] group@[a] < level.nodes@.len(),
    ensures
        match decide(*level, group@, pol) {
            Some((action, members)) => r == Some(action) && final(buf).sel@ == old(buf).sel@
                + members,
            None => r is None && final(buf).sel@ == old(buf).sel@,
        },
        final(buf).group_plans == old(buf).group_plans,
        final(buf).resolve_keeps == old(buf).resolve_keeps,
{
    let ghost sel0 = buf.sel@;
    if pol.concat_all {
        let mut a: usize = 0;
        while a < group.len()
            invariant
                0 <= a <= group@.len(),
                buf.sel@ == sel0 + group@.take(a as int),
                buf.group_plans == old(buf).group_plans,
                buf.resolve_keeps == old(buf).resolve_keeps,
            decreases group@.len() - a,
        {
            buf.sel.push(group[a]);
            assert(sel0 + group@.take(a + 1) =~= (sel0 + group@.take(a as int)).push(
                group@[a as int],
            ));
            a += 1;
        }
        assert(group@.take(group@.len() as int) =~= group@);
        return Some(GroupAction::Concat);
    }
    buf.filtered.clear();
    buf.dup_members.clear();
    pair_set_clear(&mut buf.seen_pairs);
    let keep: u32 = group[0];
    buf.filtered.push(keep);
    let _ = collect_keys(level, keep as usize, &buf.seen_pairs, &mut buf.keep_pairs_sorted);
    let ghost keep_keys = keys(level.pairs_at(keep as int));
    absorb_keys(&mut buf.seen_pairs, &buf.keep_pairs_sorted);
    assert(buf.seen_pairs@ =~= keep_keys.to_set());
    sort_keys(&mut buf.keep_pairs_sorted);
    let mut k: usize = 1;
    while k < group.len()
        invariant
            level.arena_wf(),
            group@.len() >= 2,
            forall|a: int| 0 <= a < group@.len() ==> #[trigger] group@[a] < level.nodes@.len(),
            1 <= k <= group@.len(),
            keep == group@[0],
            keep_keys == keys(level.pairs_at(keep as int)),
            buf.keep_pairs_sorted@.to_multiset() == keep_keys.to_multiset(),
            vstd::relations::sorted_by(
                buf.keep_pairs_sorted@,
                |a: (u32, u32), b: (u32, u32)| key_leq(a, b),
            ),
            ({
                let g = greedy(*level, group@, pol.parent_marg, k as int);
                &&& buf.filtered@ == g.filtered
                &&& buf.dup_members@ == g.dups
                &&& buf.seen_pairs@ == g.seen
            }),
            buf.sel@ == sel0,
            buf.group_plans == old(buf).group_plans,
            buf.resolve_keeps == old(buf).resolve_keeps,
        decreases group@.len() - k,
    {
        let idx: u32 = group[k];
        let ghost ks = keys(level.pairs_at(idx as int));
        let overlap = collect_keys(level, idx as usize, &buf.seen_pairs, &mut buf.member_pairs);
        if !overlap {
            absorb_keys(&mut buf.seen_pairs, &buf.member_pairs);
            buf.filtered.push(idx);
        } else if pol.parent_marg {
            sort_keys(&mut buf.member_pairs);
            proof {
                lemma_sorted_eq(ks, keep_keys, buf.member_pairs@, buf.keep_pairs_sorted@);
            }
            if keys_equal(&buf.member_pairs, &buf.keep_pairs_sorted) {
                buf.dup_members.push(idx);
            }
        }
        k += 1;
    }
    if buf.dup_members.len() > 0 && (buf.filtered.len() < 2 || pol.fold_allow) {
        buf.sel.push(keep);
        let mut a: usize = 0;
        while a < buf.dup_members.len()
            invariant
                0 <= a <= buf.dup_members@.len(),
                buf.sel@ == sel0.push(keep) + buf.dup_members@.take(a as int),
                buf.dup_members@ == greedy(
                    *level,
                    group@,
                    pol.parent_marg,
                    group@.len() as int,
                ).dups,
                buf.group_plans == old(buf).group_plans,
                buf.resolve_keeps == old(buf).resolve_keeps,
            decreases buf.dup_members@.len() - a,
        {
            let x: u32 = buf.dup_members[a];
            buf.sel.push(x);
            assert(buf.sel@ =~= sel0.push(keep) + buf.dup_members@.take(a + 1));
            a += 1;
        }
        assert(buf.sel@ =~= sel0 + (seq![keep] + buf.dup_members@));
        Some(GroupAction::DupRedirect)
    } else if buf.filtered.len() >= 2 {
        let mut a: usize = 0;
        while a < buf.filtered.len()
            invariant
                0 <= a <= buf.filtered@.len(),
                buf.sel@ == sel0 + buf.filtered@.take(a as int),
                buf.filtered@ == greedy(
                    *level,
                    group@,
                    pol.parent_marg,
                    group@.len() as int,
                ).filtered,
                buf.group_plans == old(buf).group_plans,
                buf.resolve_keeps == old(buf).resolve_keeps,
            decreases buf.filtered@.len() - a,
        {
            let x: u32 = buf.filtered[a];
            buf.sel.push(x);
            assert(buf.sel@ =~= sel0 + buf.filtered@.take(a + 1));
            a += 1;
        }
        assert(buf.filtered@.take(buf.filtered@.len() as int) =~= buf.filtered@);
        Some(GroupAction::Concat)
    } else {
        None
    }
}

/// The plans in the buffers are the decisions `ps`.
pub open spec fn plans_match(sel: Seq<u32>, gps: Seq<GroupPlan>, ps: Seq<PlanSpec>) -> bool {
    &&& gps.len() == ps.len()
    &&& forall|q: int|
        0 <= q < gps.len() ==> {
            &&& (#[trigger] gps[q]).start <= gps[q].end <= sel.len()
            &&& gps[q].action == ps[q].action
            &&& sel.subrange(gps[q].start as int, gps[q].end as int) == ps[q].members
        }
}

/// How many members the first `k` plans select.
pub open spec fn selected(ps: Seq<PlanSpec>, k: int) -> nat
    decreases k,
{
    if k <= 0 {
        0
    } else {
        selected(ps, k - 1) + ps[k - 1].members.len()
    }
}

/// What the first plans select does not depend on the later ones.
proof fn lemma_selected_push(ps: Seq<PlanSpec>, p: PlanSpec, k: int)
    requires
        0 <= k <= ps.len(),
    ensures
        selected(ps.push(p), k) == selected(ps, k),
    decreases k,
{
    if k > 0 {
        lemma_selected_push(ps, p, k - 1);
    }
}

/// Decide every group, before anything is changed.
pub fn plan_groups(
    level: &TddLevel,
    flat: &Vec<u32>,
    starts: &Vec<u32>,
    pol: MergePolicy,
    buf: &mut MergeBuffers,
)
    requires
        level.arena_wf(),
        groups_wf(flat@, starts@, level.nodes@.len() as int),
        old(buf).empty(),
    ensures
        plans_match(
            final(buf).sel@,
            final(buf).group_plans@,
            plans(*level, flat@, starts@, pol, starts@.len() as int),
        ),
        final(buf).sel@.len() == selected(
            plans(*level, flat@, starts@, pol, starts@.len() as int),
            plans(*level, flat@, starts@, pol, starts@.len() as int).len() as int,
        ),
        final(buf).resolve_keeps@.len() == 0,
{
    let mut g: usize = 0;
    while g < starts.len()
        invariant
            level.arena_wf(),
            groups_wf(flat@, starts@, level.nodes@.len() as int),
            0 <= g <= starts@.len(),
            plans_match(
                buf.sel@,
                buf.group_plans@,
                plans(*level, flat@, starts@, pol, g as int),
            ),
            buf.sel@.len() == selected(
                plans(*level, flat@, starts@, pol, g as int),
                plans(*level, flat@, starts@, pol, g as int).len() as int,
            ),
            buf.resolve_keeps@.len() == 0,
        decreases starts@.len() - g,
    {
        let start: usize = starts[g] as usize;
        let end: usize = if g + 1 < starts.len() {
            starts[g + 1] as usize
        } else {
            flat.len()
        };
        assert(starts@[g as int] + 2 <= group_end(flat@, starts@, g as int));
        let group = vstd::slice::slice_subrange(flat.as_slice(), start, end);
        assert(group@ == group_at(flat@, starts@, g as int));
        let ghost sel0 = buf.sel@;
        let ghost gps0 = buf.group_plans@;
        let sel_start: usize = buf.sel.len();
        let action = decide_group(level, group, pol, buf);
        let sel_end: usize = buf.sel.len();
        if let Some(a) = action {
            buf.group_plans.push(GroupPlan { action: a, start: sel_start, end: sel_end });
            let ghost chosen = decide(*level, group@, pol)->0;
            assert(buf.sel@.subrange(sel_start as int, sel_end as int) =~= chosen.1);
        }
        proof {
            let ps0 = plans(*level, flat@, starts@, pol, g as int);
            let ps = plans(*level, flat@, starts@, pol, g + 1);
            if action is Some {
                lemma_selected_push(ps0, ps[ps0.len() as int], ps0.len() as int);
            }
            assert forall|q: int| 0 <= q < buf.group_plans@.len() implies {
                &&& (#[trigger] buf.group_plans@[q]).start <= buf.group_plans@[q].end
                    <= buf.sel@.len()
                &&& buf.group_plans@[q].action == ps[q].action
                &&& buf.sel@.subrange(
                    buf.group_plans@[q].start as int,
                    buf.group_plans@[q].end as int,
                ) == ps[q].members
            } by {
                if q < gps0.len() {
                    assert(buf.group_plans@[q] == gps0[q]);
                    assert(buf.sel@.subrange(gps0[q].start as int, gps0[q].end as int)
                        =~= sel0.subrange(gps0[q].start as int, gps0[q].end as int));
                }
            }
        }
        g += 1;
    }
}

} // verus!
