//! Carrying the decided merges out at the level of the twins.

use super::merge::{
    concat_lists, concat_twin_pairs, lemma_surv, merge_two_internal_twins, merged_into, rank_of,
    surv,
};
use super::plan::{
    choice_ok, groups_wf, lemma_plans_disjoint, plans_match, plans_ok, GroupAction, GroupPlan,
    PlanSpec,
};
use crate::level::{InputPair, TddLevel};
use vstd::prelude::*;

verus! {

/// Whether node `i` is member `x` of plan `q`, survivors aside.
pub open spec fn moved_by(ps: Seq<PlanSpec>, i: int, q: int, x: int) -> bool {
    0 <= q < ps.len() && 1 <= x < ps[q].members.len() && ps[q].members[x] == i
}

/// Whether a plan moves node `i`.
pub open spec fn moved(ps: Seq<PlanSpec>, i: int) -> bool {
    exists|q: int, x: int| moved_by(ps, i, q, x)
}

/// Whether a plan redirects node `i`.
pub open spec fn redirected(ps: Seq<PlanSpec>, i: int) -> bool {
    exists|q: int, x: int|
        #[trigger] moved_by(ps, i, q, x) && ps[q].action == GroupAction::DupRedirect
}

/// The node that `i` ends up in.
pub open spec fn target_of(ps: Seq<PlanSpec>, i: int) -> u32 {
    if moved(ps, i) {
        let (q, x) = choose|q: int, x: int| moved_by(ps, i, q, x);
        ps[q].members[0]
    } else {
        i as u32
    }
}

/// Where every node ends up.
pub open spec fn targets(ps: Seq<PlanSpec>, width: int) -> Seq<u32> {
    Seq::new(width as nat, |i: int| target_of(ps, i))
}

/// Which nodes are redirected.
pub open spec fn redirects(ps: Seq<PlanSpec>, width: int) -> Seq<bool> {
    Seq::new(width as nat, |i: int| redirected(ps, i))
}

/// Whether plan `q` concatenates into node `i`.
pub open spec fn grows_by(ps: Seq<PlanSpec>, i: int, q: int) -> bool {
    0 <= q < ps.len() && ps[q].action == GroupAction::Concat && ps[q].members[0] == i
}

/// The list of node `i` once the plans are carried out.
pub open spec fn list_after(level: TddLevel, ps: Seq<PlanSpec>, i: int) -> Seq<InputPair> {
    if exists|q: int| grows_by(ps, i, q) {
        let q = choose|q: int| grows_by(ps, i, q);
        concat_lists(level, ps[q].members)
    } else {
        level.pairs_at(i)
    }
}

/// How many nodes the first `k` plans merge away.
pub open spec fn merged_total(ps: Seq<PlanSpec>, k: int) -> nat
    decreases k,
{
    if k <= 0 {
        0
    } else {
        (merged_total(ps, k - 1) + ps[k - 1].members.len() - 1) as nat
    }
}

/// The survivors of the first `k` plans that concatenate.
pub open spec fn keeps(ps: Seq<PlanSpec>, k: int) -> Seq<u32>
    decreases k,
{
    if k <= 0 {
        Seq::empty()
    } else if ps[k - 1].action == GroupAction::Concat {
        keeps(ps, k - 1).push(ps[k - 1].members[0])
    } else {
        keeps(ps, k - 1)
    }
}

/// The facts about decided plans that the proofs here use.
pub open spec fn plans_wf(ps: Seq<PlanSpec>, width: int) -> bool {
    &&& forall|q: int| 0 <= q < ps.len() ==> (#[trigger] ps[q]).members.len() >= 2
    &&& forall|q: int, x: int|
        0 <= q < ps.len() && 0 <= x < ps[q].members.len() ==> (#[trigger] ps[q].members[x])
            < width
    &&& forall|q: int, x: int, r: int, y: int|
        #![trigger ps[q].members[x], ps[r].members[y]]
        0 <= q < ps.len() && 0 <= x < ps[q].members.len() && 0 <= r < ps.len() && 0 <= y
            < ps[r].members.len() && ps[q].members[x] == ps[r].members[y] ==> q == r && x == y
}

/// Decided plans have them.
pub proof fn lemma_plans_wf(
    level: TddLevel,
    flat: Seq<u32>,
    starts: Seq<u32>,
    ps: Seq<PlanSpec>,
)
    requires
        groups_wf(flat, starts, level.nodes@.len() as int),
        plans_ok(level, flat, starts, ps, starts.len() as int),
    ensures
        plans_wf(ps, level.nodes@.len() as int),
{
    assert forall|q: int| 0 <= q < ps.len() implies (#[trigger] ps[q]).members.len() >= 2 by {
        assert(choice_ok(
            level,
            super::plan::group_at(flat, starts, ps[q].g),
            ps[q].action,
            ps[q].members,
        ));
    }
    assert forall|q: int, x: int|
        0 <= q < ps.len() && 0 <= x < ps[q].members.len() implies (#[trigger] ps[q].members[x])
        < level.nodes@.len() by {
        lemma_plans_disjoint(level, flat, starts, ps, q, q, x, x);
    }
    assert forall|q: int, x: int, r: int, y: int|
        #![trigger ps[q].members[x], ps[r].members[y]]
        0 <= q < ps.len() && 0 <= x < ps[q].members.len() && 0 <= r < ps.len() && 0 <= y
            < ps[r].members.len() && ps[q].members[x] == ps[r].members[y] implies q == r && x
        == y by {
        lemma_plans_disjoint(level, flat, starts, ps, q, r, x, y);
    }
}

/// A member ends up in its plan's survivor.
pub proof fn lemma_target_of(ps: Seq<PlanSpec>, width: int, q: int, x: int)
    requires
        plans_wf(ps, width),
        0 <= q < ps.len(),
        0 <= x < ps[q].members.len(),
    ensures
        target_of(ps, ps[q].members[x] as int) == ps[q].members[0],
        redirected(ps, ps[q].members[x] as int) <==> x > 0 && ps[q].action
            == GroupAction::DupRedirect,
        x > 0 ==> moved(ps, ps[q].members[x] as int),
        x == 0 ==> !moved(ps, ps[q].members[x] as int),
{
    let i = ps[q].members[x] as int;
    if x > 0 {
        assert(moved_by(ps, i, q, x));
        let (a, b) = choose|a: int, b: int| moved_by(ps, i, a, b);
        assert(ps[a].members[b] == ps[q].members[x]);
        if redirected(ps, i) {
            let (c, d) = choose|c: int, d: int|
                #[trigger] moved_by(ps, i, c, d) && ps[c].action == GroupAction::DupRedirect;
            assert(ps[c].members[d] == ps[q].members[x]);
        }
    } else {
        assert forall|a: int, b: int| !moved_by(ps, i, a, b) by {
            if moved_by(ps, i, a, b) {
                assert(ps[a].members[b] == ps[q].members[x]);
            }
        }
    }
}

/// A survivor ends up in itself, and so does every node's target.
pub proof fn lemma_target_fixed(ps: Seq<PlanSpec>, width: int, i: int)
    requires
        plans_wf(ps, width),
        0 <= i < width <= u32::MAX,
    ensures
        target_of(ps, i) < width,
        target_of(ps, target_of(ps, i) as int) == target_of(ps, i),
        !moved(ps, target_of(ps, i) as int),
        target_of(ps, i) == i <==> !moved(ps, i),
{
    if moved(ps, i) {
        let (q, x) = choose|q: int, x: int| moved_by(ps, i, q, x);
        lemma_target_of(ps, width, q, x);
        lemma_target_of(ps, width, q, 0);
        assert(ps[q].members[0] != ps[q].members[x]);
    }
}

/// The list of a node that a plan concatenates into.
pub proof fn lemma_list_after(level: TddLevel, ps: Seq<PlanSpec>, width: int, q: int)
    requires
        plans_wf(ps, width),
        0 <= q < ps.len(),
        ps[q].action == GroupAction::Concat,
    ensures
        list_after(level, ps, ps[q].members[0] as int) == concat_lists(level, ps[q].members),
{
    let i = ps[q].members[0] as int;
    assert(grows_by(ps, i, q));
    let r = choose|r: int| grows_by(ps, i, r);
    assert(ps[r].members[0] == ps[q].members[0]);
}

/// Equal lists concatenate equally.
pub proof fn lemma_concat_same(a: TddLevel, b: TddLevel, group: Seq<u32>)
    requires
        forall|g: int|
            0 <= g < group.len() ==> a.pairs_at(#[trigger] group[g] as int) == b.pairs_at(
                group[g] as int,
            ),
    ensures
        concat_lists(a, group) == concat_lists(b, group),
    decreases group.len(),
{
    if group.len() > 0 {
        assert forall|g: int| 0 <= g < group.drop_last().len() implies a.pairs_at(
            #[trigger] group.drop_last()[g] as int,
        ) == b.pairs_at(group.drop_last()[g] as int) by {
            assert(group.drop_last()[g] == group[g]);
        }
        lemma_concat_same(a, b, group.drop_last());
        assert(a.pairs_at(group[group.len() - 1] as int) == b.pairs_at(
            group[group.len() - 1] as int,
        ));
    }
}

/// Concatenate the lists of a group's members into the first.
pub fn merge_twin_data(level: &mut TddLevel, group: &[u32])
    requires
        old(level).arena_wf(),
        group@.len() >= 2,
        forall|g: int| 0 <= g < group@.len() ==> #[trigger] group@[g] < old(level).nodes@.len(),
        old(level).nodes@.len() < 0xffff_ffff,
    ensures
        merged_into(
            *old(level),
            *final(level),
            group@[0] as int,
            concat_lists(*old(level), group@),
        ),
{
    let keep: usize = group[0] as usize;
    if group.len() == 2 {
        let other: usize = group[1] as usize;
        proof {
            let g = group@;
            let l = *level;
            assert(g.drop_last().drop_last() =~= Seq::<u32>::empty());
            assert(g.drop_last().last() == g[0]);
            assert(concat_lists(l, g.drop_last().drop_last()) =~= Seq::<InputPair>::empty());
            assert(concat_lists(l, g.drop_last()) =~= l.pairs_at(g[0] as int));
            assert(concat_lists(l, g) =~= l.pairs_at(g[0] as int) + l.pairs_at(g[1] as int));
        }
        merge_two_internal_twins(level, keep, other);
    } else {
        concat_twin_pairs(level, keep, group);
    }
}

/// Pairs that the first `k` plans append.
pub open spec fn room(level: TddLevel, ps: Seq<PlanSpec>, k: int) -> nat
    decreases k,
{
    if k <= 0 {
        0
    } else if ps[k - 1].action == GroupAction::Concat {
        room(level, ps, k - 1) + concat_lists(level, ps[k - 1].members).len()
    } else {
        room(level, ps, k - 1)
    }
}

/// `n`, held at the largest `usize`.
pub open spec fn held_usize(n: nat) -> usize {
    if n > usize::MAX {
        usize::MAX
    } else {
        n as usize
    }
}

/// Arena room that the concatenations need: the selected members' pairs, held
/// at the largest `usize`, and one side-list entry each.
pub(crate) fn needed_room(
    level: &TddLevel,
    sel: &Vec<u32>,
    plans: &Vec<GroupPlan>,
    Ghost(ps): Ghost<Seq<PlanSpec>>,
) -> (r: (usize, usize))
    requires
        level.arena_wf(),
        plans_match(sel@, plans@, ps),
        plans_wf(ps, level.nodes@.len() as int),
    ensures
        r.0 == held_usize(room(*level, ps, ps.len() as int)),
        r.1 == keeps(ps, ps.len() as int).len(),
{
    let mut needed_pairs: usize = 0;
    let mut needed_ext: usize = 0;
    let mut q: usize = 0;
    while q < plans.len()
        invariant
            level.arena_wf(),
            plans_match(sel@, plans@, ps),
            plans_wf(ps, level.nodes@.len() as int),
            0 <= q <= plans@.len(),
            needed_pairs == held_usize(room(*level, ps, q as int)),
            needed_ext == keeps(ps, q as int).len(),
            needed_ext <= q,
        decreases plans@.len() - q,
    {
        let p = plans[q];
        if p.action == GroupAction::Concat {
            let ghost members = ps[q as int].members;
            let mut x: usize = p.start;
            assert(members.take(0) =~= Seq::<u32>::empty());
            while x < p.end
                invariant
                    level.arena_wf(),
                    plans_match(sel@, plans@, ps),
                    plans_wf(ps, level.nodes@.len() as int),
                    0 <= q < plans@.len(),
                    p == plans@[q as int],
                    members == ps[q as int].members,
                    p.start <= x <= p.end <= sel@.len(),
                    needed_pairs == held_usize(
                        room(*level, ps, q as int) + concat_lists(
                            *level,
                            members.take(x - p.start),
                        ).len(),
                    ),
                decreases p.end - x,
            {
                assert(sel@[x as int] == ps[q as int].members[x - p.start]);
                assert(members.take(x + 1 - p.start).drop_last() =~= members.take(x - p.start));
                let n: usize = level.pair_count_at(sel[x] as usize);
                needed_pairs = needed_pairs.saturating_add(n);
                x += 1;
            }
            assert(members.take(p.end - p.start) =~= members);
            needed_ext += 1;
        }
        q += 1;
    }
    (needed_pairs, needed_ext)
}

/// What the first `k` plans leave behind at the level.
pub open spec fn committed(before: TddLevel, after: TddLevel, ps: Seq<PlanSpec>, k: int) -> bool {
    &&& after.arena_wf()
    &&& after.nodes@.len() == before.nodes@.len()
    &&& after.same_store(before)
    &&& after.same_flags(before)
    &&& forall|i: int|
        0 <= i < before.nodes@.len() ==> #[trigger] after.pairs_at(i) == list_after(
            before,
            ps.take(k),
            i,
        )
    &&& forall|i: int|
        0 <= i < before.nodes@.len() ==> (#[trigger] after.nodes@[i] is Tombstone
            ==> before.nodes@[i] is Tombstone)
}

/// One more plan.
proof fn lemma_committed_step(
    before: TddLevel,
    mid: TddLevel,
    after: TddLevel,
    ps: Seq<PlanSpec>,
    k: int,
)
    requires
        plans_wf(ps, before.nodes@.len() as int),
        0 <= k < ps.len(),
        committed(before, mid, ps, k),
        ps[k].action == GroupAction::DupRedirect ==> after == mid,
        ps[k].action == GroupAction::Concat ==> merged_into(
            mid,
            after,
            ps[k].members[0] as int,
            concat_lists(mid, ps[k].members),
        ),
    ensures
        committed(before, after, ps, k + 1),
{
    let a = ps.take(k);
    let b = ps.take(k + 1);
    let w = before.nodes@.len() as int;
    assert forall|q: int| 0 <= q < k implies #[trigger] a[q] == b[q] by {}
    if ps[k].action == GroupAction::Concat {
        assert forall|g: int| 0 <= g < ps[k].members.len() implies mid.pairs_at(
            #[trigger] ps[k].members[g] as int,
        ) == before.pairs_at(ps[k].members[g] as int) by {
            let i = ps[k].members[g] as int;
            assert forall|q: int| !grows_by(a, i, q) by {
                if grows_by(a, i, q) {
                    assert(ps[q].members[0] == ps[k].members[g]);
                }
            }
            assert(mid.pairs_at(i) == list_after(before, a, i));
        }
        lemma_concat_same(mid, before, ps[k].members);
    }
    assert forall|i: int| 0 <= i < w implies #[trigger] after.pairs_at(i) == list_after(
        before,
        b,
        i,
    ) by {
        assert(mid.pairs_at(i) == list_after(before, a, i));
        if grows_by(ps, i, k) {
            assert(grows_by(b, i, k));
            let r = choose|r: int| grows_by(b, i, r);
            assert(ps[r].members[0] == ps[k].members[0]);
            assert(after.pairs_at(i) == concat_lists(before, ps[k].members));
        } else {
            assert(after.pairs_at(i) == mid.pairs_at(i)) by {
                assert(ps[k].members[0] < w);
            }
            if exists|r: int| grows_by(a, i, r) {
                let r = choose|r: int| grows_by(a, i, r);
                assert(grows_by(b, i, r));
                let s = choose|s: int| grows_by(b, i, s);
                assert(s != k);
                assert(ps[s].members[0] == ps[r].members[0]);
            } else {
                assert forall|s: int| !grows_by(b, i, s) by {
                    if grows_by(b, i, s) && s < k {
                        assert(grows_by(a, i, s));
                    }
                }
            }
        }
    }
    assert forall|i: int|
        0 <= i < w && #[trigger] after.nodes@[i] is Tombstone implies before.nodes@[i] is Tombstone by {
        assert(mid.nodes@[i] is Tombstone ==> before.nodes@[i] is Tombstone);
        if ps[k].action == GroupAction::Concat && i != ps[k].members[0] {
            assert(after.pairs_at(i) == mid.pairs_at(i));
        }
    }
}

/// Carry the plans out: concatenate the lists, and record where every node
/// went.
pub(crate) fn commit_plans(
    level: &mut TddLevel,
    sel: &Vec<u32>,
    plans: &Vec<GroupPlan>,
    fork_down: bool,
    merge_target: &mut Vec<u32>,
    dup_redirect: &mut Vec<bool>,
    resolve_keeps: &mut Vec<u32>,
    Ghost(ps): Ghost<Seq<PlanSpec>>,
) -> (merged: usize)
    requires
        old(level).arena_wf(),
        old(level).nodes@.len() < 0xffff_ffff,
        plans_match(sel@, plans@, ps),
        plans_wf(ps, old(level).nodes@.len() as int),
        old(merge_target)@.len() >= old(level).nodes@.len(),
        old(dup_redirect)@.len() >= old(level).nodes@.len(),
        forall|i: int|
            0 <= i < old(level).nodes@.len() ==> #[trigger] old(merge_target)@[i] == i,
        forall|i: int| 0 <= i < old(level).nodes@.len() ==> !#[trigger] old(dup_redirect)@[i],
        old(resolve_keeps)@.len() == 0,
        merged_total(ps, ps.len() as int) <= usize::MAX,
    ensures
        committed(*old(level), *final(level), ps, ps.len() as int),
        merged == merged_total(ps, ps.len() as int),
        final(merge_target)@.len() == old(merge_target)@.len(),
        final(merge_target)@.take(old(level).nodes@.len() as int) == targets(
            ps,
            old(level).nodes@.len() as int,
        ),
        final(dup_redirect)@.len() == old(dup_redirect)@.len(),
        final(dup_redirect)@.take(old(level).nodes@.len() as int) == redirects(
            ps,
            old(level).nodes@.len() as int,
        ),
        final(resolve_keeps)@ == (if fork_down {
            keeps(ps, ps.len() as int)
        } else {
            Seq::empty()
        }),
        merged == 0 ==> *final(level) == *old(level),
{
    let ghost before = *level;
    let ghost w = before.nodes@.len() as int;
    let ghost tlen = merge_target@.len();
    let ghost dlen = dup_redirect@.len();
    let mut merged: usize = 0;
    let mut q: usize = 0;
    proof {
        let none = ps.take(0);
        assert forall|i: int| 0 <= i < w implies #[trigger] level.pairs_at(i) == list_after(
            before,
            none,
            i,
        ) by {
            assert forall|r: int| !grows_by(none, i, r) by {}
        }
    }
    while q < plans.len()
        invariant
            before.arena_wf(),
            w == before.nodes@.len(),
            w < 0xffff_ffff,
            plans_match(sel@, plans@, ps),
            plans_wf(ps, w),
            0 <= q <= plans@.len(),
            committed(before, *level, ps, q as int),
            merged == merged_total(ps, q as int),
            merged_total(ps, ps.len() as int) <= usize::MAX,
            merge_target@.len() == tlen >= w,
            dup_redirect@.len() == dlen >= w,
            forall|r: int, x: int|
                0 <= r < q && 1 <= x < ps[r].members.len()
                    ==> merge_target@[(#[trigger] ps[r].members[x]) as int] == ps[r].members[0]
                    && dup_redirect@[ps[r].members[x] as int] == (ps[r].action
                    == GroupAction::DupRedirect),
            forall|i: int|
                0 <= i < w && !moved(ps.take(q as int), i) ==> #[trigger] merge_target@[i] == i,
            forall|i: int|
                0 <= i < w && !moved(ps.take(q as int), i) ==> !#[trigger] dup_redirect@[i],
            resolve_keeps@ == (if fork_down {
                keeps(ps, q as int)
            } else {
                Seq::empty()
            }),
            q == 0 ==> *level == before,
        decreases plans@.len() - q,
    {
        let p = plans[q];
        let members = vstd::slice::slice_subrange(sel.as_slice(), p.start, p.end);
        let ghost plan = ps[q as int];
        assert(members@ == plan.members);
        let keep: u32 = members[0];
        let ghost mid = *level;
        let ghost t0 = merge_target@;
        let ghost d0 = dup_redirect@;
        proof {
            lemma_merged_mono(ps, w, q + 1, ps.len() as int);
        }
        let redirect = match p.action {
            GroupAction::Concat => false,
            GroupAction::DupRedirect => true,
        };
        let mut x: usize = 1;
        while x < members.len()
            invariant
                1 <= x <= members@.len(),
                members@ == plan.members,
                plan == ps[q as int],
                0 <= q < ps.len(),
                plans_wf(ps, w),
                keep == plan.members[0],
                merge_target@.len() == tlen >= w,
                dup_redirect@.len() == dlen >= w,
                t0.len() == tlen,
                d0.len() == dlen,
                forall|y: int|
                    1 <= y < x ==> merge_target@[(#[trigger] plan.members[y]) as int] == keep
                        && dup_redirect@[plan.members[y] as int] == redirect,
                forall|i: int|
                    0 <= i < w && (forall|y: int| 1 <= y < x ==> plan.members[y] != i)
                        ==> #[trigger] merge_target@[i] == t0[i],
                forall|i: int|
                    0 <= i < w && (forall|y: int| 1 <= y < x ==> plan.members[y] != i)
                        ==> #[trigger] dup_redirect@[i] == d0[i],
            decreases members@.len() - x,
        {
            let m: usize = members[x] as usize;
            assert(m == ps[q as int].members[x as int]);
            let ghost t1 = merge_target@;
            let ghost d1 = dup_redirect@;
            merge_target.set(m, keep);
            dup_redirect.set(m, redirect);
            proof {
                assert forall|y: int| 1 <= y < x + 1 implies merge_target@[(
                #[trigger] plan.members[y]) as int] == keep && dup_redirect@[plan.members[y] as int]
                    == redirect by {
                    if y < x {
                        assert(ps[q as int].members[y] != ps[q as int].members[x as int]);
                    }
                }
                assert forall|i: int|
                    0 <= i < w && (forall|y: int|
                        1 <= y < x + 1 ==> plan.members[y] != i) implies #[trigger] merge_target@[i]
                    == t0[i] by {
                    assert(plan.members[x as int] != i);
                    assert(t1[i] == t0[i]);
                }
                assert forall|i: int|
                    0 <= i < w && (forall|y: int|
                        1 <= y < x + 1 ==> plan.members[y] != i) implies #[trigger] dup_redirect@[i]
                    == d0[i] by {
                    assert(plan.members[x as int] != i);
                    assert(d1[i] == d0[i]);
                }
            }
            x += 1;
        }
        merged += members.len() - 1;
        if let GroupAction::Concat = p.action {
            if fork_down {
                resolve_keeps.push(keep);
            }
            assert forall|g: int| 0 <= g < members@.len() implies #[trigger] members@[g]
                < level.nodes@.len() by {
                assert(ps[q as int].members[g] < w);
            }
            merge_twin_data(level, members);
        }
        proof {
            lemma_committed_step(before, mid, *level, ps, q as int);
            assert forall|r: int, x: int|
                0 <= r < q + 1 && 1 <= x < ps[r].members.len() implies merge_target@[(
            #[trigger] ps[r].members[x]) as int] == ps[r].members[0]
                && dup_redirect@[ps[r].members[x] as int] == (ps[r].action
                == GroupAction::DupRedirect) by {
                if r == q {
                    assert(plan.members[x] == ps[r].members[x]);
                } else {
                    assert forall|y: int| 1 <= y < plan.members.len() implies plan.members[y]
                        != ps[r].members[x] by {
                        assert(ps[q as int].members[y] == plan.members[y]);
                    }
                    assert(merge_target@[ps[r].members[x] as int] == t0[ps[r].members[x] as int]);
                    assert(dup_redirect@[ps[r].members[x] as int] == d0[ps[r].members[x] as int]);
                }
            }
            assert forall|i: int| 0 <= i < w && !moved(ps.take(q + 1), i) implies merge_target@[i]
                == i && !dup_redirect@[i] by {
                lemma_moved_less(ps, q as int, i);
                assert forall|y: int| 1 <= y < plan.members.len() implies plan.members[y]
                    != i by {
                    if plan.members[y] == i {
                        assert(moved_by(ps.take(q + 1), i, q as int, y));
                    }
                }
                assert(merge_target@[i] == t0[i]);
                assert(dup_redirect@[i] == d0[i]);
            }
        }
        q += 1;
    }
    proof {
        assert(ps.take(ps.len() as int) =~= ps);
        lemma_targets_read(ps, w, merge_target@, dup_redirect@);
        if merged == 0 && ps.len() > 0 {
            lemma_merged_mono(ps, w, 1, ps.len() as int);
            assert(merged_total(ps, 1) == merged_total(ps, 0) + ps[0].members.len() - 1);
        }
    }
    merged
}

/// What more plans merge away is no less.
pub proof fn lemma_merged_mono(ps: Seq<PlanSpec>, width: int, a: int, b: int)
    requires
        plans_wf(ps, width),
        0 <= a <= b <= ps.len(),
    ensures
        merged_total(ps, a) <= merged_total(ps, b),
    decreases b - a,
{
    if a < b {
        lemma_merged_mono(ps, width, a, b - 1);
        assert(ps[b - 1].members.len() >= 2);
    }
}

/// A node that more plans do not move, fewer do not move either.
proof fn lemma_moved_less(ps: Seq<PlanSpec>, k: int, i: int)
    requires
        0 <= k < ps.len(),
        !moved(ps.take(k + 1), i),
    ensures
        !moved(ps.take(k), i),
{
    if moved(ps.take(k), i) {
        let (q, x) = choose|q: int, x: int| moved_by(ps.take(k), i, q, x);
        assert(moved_by(ps.take(k + 1), i, q, x));
    }
}

/// The recorded targets and redirections are those of the plans.
proof fn lemma_targets_read(ps: Seq<PlanSpec>, w: int, t: Seq<u32>, d: Seq<bool>)
    requires
        plans_wf(ps, w),
        0 <= w < 0xffff_ffff,
        t.len() >= w,
        d.len() >= w,
        forall|r: int, x: int|
            0 <= r < ps.len() && 1 <= x < ps[r].members.len() ==> t[(
            #[trigger] ps[r].members[x]) as int] == ps[r].members[0] && d[ps[r].members[x] as int]
                == (ps[r].action == GroupAction::DupRedirect),
        forall|i: int| 0 <= i < w && !moved(ps, i) ==> #[trigger] t[i] == i,
        forall|i: int| 0 <= i < w && !moved(ps, i) ==> !#[trigger] d[i],
    ensures
        t.take(w) == targets(ps, w),
        d.take(w) == redirects(ps, w),
{
    assert forall|i: int| 0 <= i < w implies #[trigger] t[i] == target_of(ps, i) && d[i]
        == redirected(ps, i) by {
        if moved(ps, i) {
            let (q, x) = choose|q: int, x: int| moved_by(ps, i, q, x);
            lemma_target_of(ps, w, q, x);
            assert(t[ps[q].members[x] as int] == ps[q].members[0]);
        } else {
            assert(t[i] == i);
            assert(!d[i]);
            if redirected(ps, i) {
                let (q, x) = choose|q: int, x: int|
                    #[trigger] moved_by(ps, i, q, x) && ps[q].action == GroupAction::DupRedirect;
                assert(moved_by(ps, i, q, x));
            }
        }
    }
    assert(t.take(w) =~= targets(ps, w));
    assert(d.take(w) =~= redirects(ps, w));
}

/// The index of every node once the level is compacted: a moved node has that
/// of its survivor.
pub open spec fn remap(target: Seq<u32>, i: int) -> int {
    rank_of(target, target[i] as int)
}

/// Every node's target is a survivor.
pub open spec fn settled(target: Seq<u32>) -> bool {
    forall|i: int|
        0 <= i < target.len() ==> (#[trigger] target[i]) < target.len()
            && target[target[i] as int] == target[i]
}

/// The targets of plans are survivors.
pub proof fn lemma_settled(ps: Seq<PlanSpec>, w: int)
    requires
        plans_wf(ps, w),
        0 <= w < 0xffff_ffff,
    ensures
        settled(targets(ps, w)),
{
    let t = targets(ps, w);
    assert forall|i: int| 0 <= i < t.len() implies (#[trigger] t[i]) < t.len() && t[t[i] as int]
        == t[i] by {
        lemma_target_fixed(ps, w, i);
    }
}

/// Fill in the compacted index of every node: survivors are numbered in order,
/// then every other node takes its survivor's number.
pub fn build_remap(merge_target: &Vec<u32>, width: usize, final_remap: &mut Vec<u32>)
    requires
        width <= merge_target@.len(),
        width < 0xffff_ffff,
        old(final_remap)@.len() >= width,
        settled(merge_target@.take(width as int)),
    ensures
        final(final_remap)@.len() == old(final_remap)@.len(),
        forall|i: int|
            0 <= i < width ==> #[trigger] final(final_remap)@[i] == remap(
                merge_target@.take(width as int),
                i,
            ),
{
    let ghost t = merge_target@.take(width as int);
    let ghost flen = final_remap@.len();
    let mut next: u32 = 0;
    let mut i: usize = 0;
    while i < width
        invariant
            0 <= i <= width <= merge_target@.len(),
            width < 0xffff_ffff,
            t == merge_target@.take(width as int),
            final_remap@.len() == flen >= width,
            next == rank_of(t, i as int),
            next <= i,
            forall|j: int|
                0 <= j < i && t[j] == j ==> #[trigger] final_remap@[j] == rank_of(t, j),
        decreases width - i,
    {
        assert(t[i as int] == merge_target@[i as int]);
        if merge_target[i] == i as u32 {
            final_remap.set(i, next);
            assert(surv(t, i + 1) == surv(t, i as int).push(i as int));
            next += 1;
        }
        i += 1;
    }
    let mut k: usize = 0;
    while k < width
        invariant
            0 <= k <= width <= merge_target@.len(),
            width < 0xffff_ffff,
            t == merge_target@.take(width as int),
            settled(t),
            final_remap@.len() == flen >= width,
            forall|j: int|
                0 <= j < width && t[j] == j ==> #[trigger] final_remap@[j] == rank_of(t, j),
            forall|j: int| 0 <= j < k ==> #[trigger] final_remap@[j] == remap(t, j),
        decreases width - k,
    {
        assert(t[k as int] == merge_target@[k as int]);
        assert(t[t[k as int] as int] == t[k as int]);
        let target: usize = merge_target[k] as usize;
        if target != k {
            let n: u32 = final_remap[target];
            assert(n == rank_of(t, target as int));
            final_remap.set(k, n);
        }
        k += 1;
    }
}

/// A compacted index is below the compacted width.
pub proof fn lemma_remap_bound(target: Seq<u32>, i: int)
    requires
        settled(target),
        0 <= i < target.len(),
    ensures
        0 <= remap(target, i) < surv(target, target.len() as int).len(),
        surv(target, target.len() as int)[remap(target, i)] == target[i],
{
    lemma_surv(target, target.len() as int);
    let x = target[i] as int;
    assert(target[target[i] as int] == target[i]);
    assert(0 <= rank_of(target, x) < surv(target, target.len() as int).len());
}

} // verus!
