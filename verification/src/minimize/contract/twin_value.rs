//! Merging twins keeps every value above them.
//!
//! Twins stand in the same lists with the same partners, so what a list loses
//! with the pairs of one twin it gains on the pairs of the other.

use super::commit::{
    grows_by, lemma_list_after, lemma_remap_bound, lemma_settled, lemma_target_fixed,
    lemma_target_of, list_after, moved, moved_by, plans_wf, redirects, remap, settled, targets,
};
use super::merge::{concat_lists, lemma_surv, surv};
use super::plan::{keys, GroupAction, PlanSpec};
use super::rewrite::{renamed, rewritten, side_below, stays};
use crate::level::{other_ref, side_ref, ChildSide, InputPair, LocalNodeIdx, TddLevel};
use crate::sums::{
    lemma_psum_append, lemma_psum_total, lemma_total_perm, lemma_total_push, lemma_total_same,
    total,
};
use crate::tdd::{
    col, differs_at, lemma_col_internal, lemma_frame, lemma_frame_below, levels_wf, list_ok,
    pair_ok, psum, ref_val, refs_ok, same_level, sides, term, Sides,
};
use crate::vtree::Vtree;
use vstd::prelude::*;

verus! {

/// The partners of node `a` in a list whose `side` references name its level.
pub open spec fn sibs(list: Seq<InputPair>, side: ChildSide, a: int) -> Seq<u32>
    decreases list.len(),
{
    if list.len() == 0 {
        Seq::empty()
    } else if side_ref(list.last(), side) == a {
        sibs(list.drop_last(), side, a).push(other_ref(list.last(), side))
    } else {
        sibs(list.drop_last(), side, a)
    }
}

/// Nodes `a` and `b` have the same partners in every list of the parent.
pub open spec fn twins(parent: TddLevel, side: ChildSide, a: int, b: int) -> bool {
    forall|n: int|
        0 <= n < parent.nodes@.len() ==> sibs(
            #[trigger] parent.pairs_at(n),
            side,
            a,
        ).to_multiset() == sibs(parent.pairs_at(n), side, b).to_multiset()
}

/// Every group that is concatenated consists of twins.
pub open spec fn concat_twins(parent: TddLevel, side: ChildSide, ps: Seq<PlanSpec>) -> bool {
    forall|q: int, x: int|
        0 <= q < ps.len() && ps[q].action == GroupAction::Concat && 0 <= x < ps[q].members.len()
            ==> twins(parent, side, ps[q].members[0] as int, #[trigger] ps[q].members[x] as int)
}

/// Every redirected node has its survivor's pairs.
pub open spec fn redirect_equal(level: TddLevel, ps: Seq<PlanSpec>) -> bool {
    forall|q: int, x: int|
        0 <= q < ps.len() && ps[q].action == GroupAction::DupRedirect && 0 <= x
            < ps[q].members.len() ==> keys(
            level.pairs_at(#[trigger] ps[q].members[x] as int),
        ).to_multiset() == keys(level.pairs_at(ps[q].members[0] as int)).to_multiset()
}

/// The worth of a list where a partner `y` is worth `w(y)` and a node `x` is
/// worth `f(x)`.
pub open spec fn wsum(
    list: Seq<InputPair>,
    side: ChildSide,
    w: spec_fn(u32) -> nat,
    f: spec_fn(u32) -> nat,
) -> nat
    decreases list.len(),
{
    if list.len() == 0 {
        0
    } else {
        wsum(list.drop_last(), side, w, f) + w(other_ref(list.last(), side)) * f(
            side_ref(list.last(), side),
        )
    }
}

/// Giving the worth of `m` to `k` shifts it from the partners of the one to
/// those of the other.
proof fn lemma_shift(
    list: Seq<InputPair>,
    side: ChildSide,
    w: spec_fn(u32) -> nat,
    f: spec_fn(u32) -> nat,
    g: spec_fn(u32) -> nat,
    k: u32,
    m: u32,
)
    requires
        k != m,
        g(k) == f(k) + f(m),
        g(m) == 0,
        forall|x: u32| x != k && x != m ==> #[trigger] g(x) == f(x),
    ensures
        wsum(list, side, w, g) + f(m) * total(sibs(list, side, m as int), w) == wsum(
            list,
            side,
            w,
            f,
        ) + f(m) * total(sibs(list, side, k as int), w),
    decreases list.len(),
{
    let v = f(m);
    if list.len() == 0 {
        assert(total(sibs(list, side, m as int), w) == 0);
        assert(total(sibs(list, side, k as int), w) == 0);
    } else {
        let rest = list.drop_last();
        lemma_shift(rest, side, w, f, g, k, m);
        let x = side_ref(list.last(), side);
        let y = other_ref(list.last(), side);
        let sm = sibs(rest, side, m as int);
        let sk = sibs(rest, side, k as int);
        if x == m {
            lemma_total_push(sm, y, w);
            assert(v * (total(sm, w) + w(y)) == v * total(sm, w) + w(y) * v) by (nonlinear_arith);
            assert(w(y) * g(x) == 0) by (nonlinear_arith)
                requires
                    g(x) == 0,
            ;
        } else if x == k {
            lemma_total_push(sk, y, w);
            assert(v * (total(sk, w) + w(y)) == v * total(sk, w) + v * w(y)) by (nonlinear_arith);
            assert(w(y) * g(x) == w(y) * f(x) + v * w(y)) by (nonlinear_arith)
                requires
                    g(x) == f(x) + v,
            ;
        } else {
            assert(g(x) == f(x));
        }
    }
}

/// Where the partners are the same, nothing changes.
proof fn lemma_absorb(
    list: Seq<InputPair>,
    side: ChildSide,
    w: spec_fn(u32) -> nat,
    f: spec_fn(u32) -> nat,
    g: spec_fn(u32) -> nat,
    k: u32,
    m: u32,
)
    requires
        k != m,
        g(k) == f(k) + f(m),
        g(m) == 0,
        forall|x: u32| x != k && x != m ==> #[trigger] g(x) == f(x),
        sibs(list, side, k as int).to_multiset() == sibs(list, side, m as int).to_multiset(),
    ensures
        wsum(list, side, w, g) == wsum(list, side, w, f),
{
    lemma_shift(list, side, w, f, g, k, m);
    lemma_total_perm(sibs(list, side, k as int), sibs(list, side, m as int), w);
}

/// `f` with the worths of the first `j` members gathered at the first.
pub open spec fn gather(f: spec_fn(u32) -> nat, members: Seq<u32>, j: int) -> spec_fn(u32) -> nat
    decreases j,
{
    if j <= 1 {
        f
    } else {
        let g = gather(f, members, j - 1);
        |x: u32|
            if x == members[0] {
                g(members[0]) + f(members[j - 1])
            } else if x == members[j - 1] {
                0nat
            } else {
                g(x)
            }
    }
}

/// What gathering leaves at each node.
proof fn lemma_gather(f: spec_fn(u32) -> nat, members: Seq<u32>, j: int)
    requires
        1 <= j <= members.len(),
        forall|a: int, b: int| 0 <= a < b < members.len() ==> members[a] != members[b],
    ensures
        gather(f, members, j)(members[0]) == total(members.take(j), f),
        forall|y: int| 1 <= y < j ==> gather(f, members, j)(#[trigger] members[y]) == 0,
        forall|x: u32|
            (forall|y: int| 0 <= y < j ==> members[y] != x) ==> #[trigger] gather(f, members, j)(x)
                == f(x),
    decreases j,
{
    if j == 1 {
        assert(members.take(1) =~= seq![members[0]]);
        assert(members.take(1).drop_last() =~= Seq::<u32>::empty());
        assert(total(members.take(1).drop_last(), f) == 0);
    } else {
        lemma_gather(f, members, j - 1);
        let g = gather(f, members, j - 1);
        let h = gather(f, members, j);
        assert(members.take(j) =~= members.take(j - 1).push(members[j - 1]));
        lemma_total_push(members.take(j - 1), members[j - 1], f);
        assert(members[0] != members[j - 1]);
        assert forall|y: int| 1 <= y < j implies h(#[trigger] members[y]) == 0 by {
            assert(members[0] != members[y]);
            if y < j - 1 {
                assert(members[y] != members[j - 1]);
                assert(g(members[y]) == 0);
            }
        }
        assert forall|x: u32|
            (forall|y: int| 0 <= y < j ==> members[y] != x) implies #[trigger] h(x) == f(x) by {
            assert(members[0] != x);
            assert(members[j - 1] != x);
            assert(g(x) == f(x));
        }
    }
}

/// Gathering twins changes no list's worth.
proof fn lemma_gather_wsum(
    list: Seq<InputPair>,
    side: ChildSide,
    w: spec_fn(u32) -> nat,
    f: spec_fn(u32) -> nat,
    members: Seq<u32>,
    j: int,
)
    requires
        1 <= j <= members.len(),
        forall|a: int, b: int| 0 <= a < b < members.len() ==> members[a] != members[b],
        forall|x: int|
            0 <= x < members.len() ==> sibs(list, side, members[0] as int).to_multiset() == sibs(
                list,
                side,
                #[trigger] members[x] as int,
            ).to_multiset(),
    ensures
        wsum(list, side, w, gather(f, members, j)) == wsum(list, side, w, f),
    decreases j,
{
    if j > 1 {
        lemma_gather_wsum(list, side, w, f, members, j - 1);
        lemma_gather(f, members, j - 1);
        let g = gather(f, members, j - 1);
        let h = gather(f, members, j);
        let m = members[j - 1];
        assert(members[0] != m);
        assert(g(m) == f(m)) by {
            assert forall|y: int| 0 <= y < j - 1 implies members[y] != m by {}
        }
        lemma_absorb(list, side, w, g, h, members[0], m);
    }
}

/// The worth of every node with the first `k` concatenations gathered.
pub open spec fn gathered(f: spec_fn(u32) -> nat, ps: Seq<PlanSpec>, k: int) -> spec_fn(
    u32,
) -> nat
    decreases k,
{
    if k <= 0 {
        f
    } else if ps[k - 1].action == GroupAction::Concat {
        gather(gathered(f, ps, k - 1), ps[k - 1].members, ps[k - 1].members.len() as int)
    } else {
        gathered(f, ps, k - 1)
    }
}

/// Whether node `x` is a member of one of the first `k` concatenations.
pub open spec fn joins(ps: Seq<PlanSpec>, k: int, x: u32) -> bool {
    exists|q: int, y: int|
        0 <= q < k && 0 <= y < ps[q].members.len() && ps[q].action == GroupAction::Concat
            && #[trigger] ps[q].members[y] == x
}

/// What gathering all groups leaves at each node.
proof fn lemma_gathered(f: spec_fn(u32) -> nat, ps: Seq<PlanSpec>, width: int, k: int)
    requires
        plans_wf(ps, width),
        0 <= k <= ps.len(),
    ensures
        forall|q: int|
            0 <= q < k && (#[trigger] ps[q]).action == GroupAction::Concat ==> gathered(
                f,
                ps,
                k,
            )(ps[q].members[0]) == total(ps[q].members, f),
        forall|q: int, y: int|
            0 <= q < k && ps[q].action == GroupAction::Concat && 1 <= y < ps[q].members.len()
                ==> gathered(f, ps, k)(#[trigger] ps[q].members[y]) == 0,
        forall|x: u32| !joins(ps, k, x) ==> #[trigger] gathered(f, ps, k)(x) == f(x),
    decreases k,
{
    if k > 0 {
        lemma_gathered(f, ps, width, k - 1);
        let g = gathered(f, ps, k - 1);
        let h = gathered(f, ps, k);
        let m = ps[k - 1].members;
        assert(m.len() >= 2);
        if ps[k - 1].action == GroupAction::Concat {
            assert forall|a: int, b: int| 0 <= a < b < m.len() implies m[a] != m[b] by {
                assert(ps[k - 1].members[a] == m[a]);
                assert(ps[k - 1].members[b] == m[b]);
            }
            lemma_gather(g, m, m.len() as int);
            assert(m.take(m.len() as int) =~= m);
            assert forall|y: int| 0 <= y < m.len() implies g(#[trigger] m[y]) == f(m[y]) by {
                assert(!joins(ps, k - 1, m[y])) by {
                    if joins(ps, k - 1, m[y]) {
                        let (q, z) = choose|q: int, z: int|
                            0 <= q < k - 1 && 0 <= z < ps[q].members.len() && ps[q].action
                                == GroupAction::Concat && #[trigger] ps[q].members[z] == m[y];
                        assert(ps[q].members[z] == ps[k - 1].members[y]);
                    }
                }
            }
            lemma_total_same(m, m, g, f);
            assert forall|q: int| 0 <= q < k && (#[trigger] ps[q]).action
                == GroupAction::Concat implies h(ps[q].members[0]) == total(ps[q].members, f) by {
                if q < k - 1 {
                    assert(ps[q].members.len() >= 2);
                    let x = ps[q].members[0];
                    assert forall|y: int| 0 <= y < m.len() implies m[y] != x by {
                        assert(ps[k - 1].members[y] == m[y]);
                    }
                    assert(h(x) == g(x));
                }
            }
            assert forall|q: int, y: int|
                0 <= q < k && ps[q].action == GroupAction::Concat && 1 <= y
                    < ps[q].members.len() implies h(#[trigger] ps[q].members[y]) == 0 by {
                if q < k - 1 {
                    let x = ps[q].members[y];
                    assert forall|z: int| 0 <= z < m.len() implies m[z] != x by {
                        assert(ps[k - 1].members[z] == m[z]);
                    }
                    assert(h(x) == g(x));
                } else {
                    assert(h(m[y]) == 0);
                }
            }
            assert forall|x: u32| !joins(ps, k, x) implies #[trigger] h(x) == f(x) by {
                assert forall|z: int| 0 <= z < m.len() implies m[z] != x by {
                    assert(ps[k - 1].members[z] == m[z]);
                }
                lemma_joins_less(ps, k - 1, x);
                assert(h(x) == g(x));
                assert(g(x) == f(x));
            }
        } else {
            assert forall|x: u32| !joins(ps, k, x) implies #[trigger] h(x) == f(x) by {
                lemma_joins_less(ps, k - 1, x);
                assert(g(x) == f(x));
            }
        }
    }
}

pub proof fn lemma_joins_less(ps: Seq<PlanSpec>, k: int, x: u32)
    requires
        !joins(ps, k + 1, x),
    ensures
        !joins(ps, k, x),
{
    if joins(ps, k, x) {
        let (q, y) = choose|q: int, y: int|
            0 <= q < k && 0 <= y < ps[q].members.len() && ps[q].action == GroupAction::Concat
                && #[trigger] ps[q].members[y] == x;
        assert(ps[q].members[y] == x);
    }
}

/// Gathering all groups changes no list's worth.
proof fn lemma_gathered_wsum(
    parent: TddLevel,
    n: int,
    side: ChildSide,
    w: spec_fn(u32) -> nat,
    f: spec_fn(u32) -> nat,
    ps: Seq<PlanSpec>,
    width: int,
    k: int,
)
    requires
        0 <= n < parent.nodes@.len(),
        plans_wf(ps, width),
        concat_twins(parent, side, ps),
        0 <= k <= ps.len(),
    ensures
        wsum(parent.pairs_at(n), side, w, gathered(f, ps, k)) == wsum(
            parent.pairs_at(n),
            side,
            w,
            f,
        ),
    decreases k,
{
    if k > 0 {
        lemma_gathered_wsum(parent, n, side, w, f, ps, width, k - 1);
        if ps[k - 1].action == GroupAction::Concat {
            let m = ps[k - 1].members;
            assert(m.len() >= 2);
            assert forall|a: int, b: int| 0 <= a < b < m.len() implies m[a] != m[b] by {
                assert(ps[k - 1].members[a] == m[a]);
                assert(ps[k - 1].members[b] == m[b]);
            }
            let list = parent.pairs_at(n);
            assert forall|x: int| 0 <= x < m.len() implies sibs(
                list,
                side,
                m[0] as int,
            ).to_multiset() == sibs(list, side, #[trigger] m[x] as int).to_multiset() by {
                assert(twins(parent, side, ps[k - 1].members[0] as int, ps[k - 1].members[x] as int));
            }
            lemma_gather_wsum(list, side, w, gathered(f, ps, k - 1), m, m.len() as int);
        }
    }
}

/// What the partner of a `side` reference is worth.
pub open spec fn partner_val(s: Sides, side: ChildSide) -> spec_fn(u32) -> nat {
    match side {
        ChildSide::Left => |y: u32| ref_val(y, s.rm, s.rc),
        ChildSide::Right => |y: u32| ref_val(y, s.lm, s.lc),
    }
}

/// What a `side` reference is worth.
pub open spec fn node_val(s: Sides, side: ChildSide) -> spec_fn(u32) -> nat {
    match side {
        ChildSide::Left => |x: u32| ref_val(x, s.lm, s.lc),
        ChildSide::Right => |x: u32| ref_val(x, s.rm, s.rc),
    }
}

/// The worth of a list, by the side of its nodes.
pub proof fn lemma_psum_wsum(list: Seq<InputPair>, s: Sides, side: ChildSide)
    ensures
        psum(list, s) == wsum(list, side, partner_val(s, side), node_val(s, side)),
    decreases list.len(),
{
    if list.len() > 0 {
        lemma_psum_wsum(list.drop_last(), s, side);
        let a = ref_val(list.last().left.0, s.lm, s.lc);
        let b = ref_val(list.last().right.0, s.rm, s.rc);
        assert(a * b == b * a) by (nonlinear_arith);
    }
}

/// The worth of a rewritten list, in the terms of the list it came from.
proof fn lemma_rewritten_wsum(
    list: Seq<InputPair>,
    side: ChildSide,
    target: Seq<u32>,
    dup: Seq<bool>,
    w: spec_fn(u32) -> nat,
    h: spec_fn(u32) -> nat,
    f: spec_fn(u32) -> nat,
)
    requires
        side_below(list, side, target.len() as int),
        target.len() < u32::MAX,
        settled(target),
        forall|x: u32|
            x < target.len() ==> #[trigger] h(x) == if target[x as int] == x || dup[x as int] {
                f(remap(target, x as int) as u32)
            } else {
                0nat
            },
    ensures
        wsum(rewritten(list, side, target, dup), side, w, f) == wsum(list, side, w, h),
    decreases list.len(),
{
    if list.len() > 0 {
        let rest = list.drop_last();
        assert(side_below(rest, side, target.len() as int)) by {
            assert forall|k: int| 0 <= k < rest.len() implies side_ref(#[trigger] rest[k], side)
                < target.len() by {
                assert(rest[k] == list[k]);
            }
        }
        lemma_rewritten_wsum(rest, side, target, dup, w, h, f);
        let p = list.last();
        let x = side_ref(p, side);
        assert(x < target.len()) by {
            assert(list[list.len() - 1] == p);
        }
        let done = rewritten(rest, side, target, dup);
        assert(h(x) == if target[x as int] == x || dup[x as int] {
            f(remap(target, x as int) as u32)
        } else {
            0nat
        });
        if stays(p, side, target, dup) {
            let q = renamed(p, side, target);
            assert(done.push(q).drop_last() =~= done);
            assert(done.push(q).last() == q);
            assert(other_ref(q, side) == other_ref(p, side));
            assert(side_ref(q, side) == remap(target, x as int) as u32);
        } else {
            assert(w(other_ref(p, side)) * 0 == 0);
        }
    }
}

/// The value of a concatenation of lists.
proof fn lemma_concat_value(level: TddLevel, s: Sides, group: Seq<u32>, f: spec_fn(u32) -> nat)
    requires
        forall|g: int|
            0 <= g < group.len() ==> psum(level.pairs_at(#[trigger] group[g] as int), s) == f(
                group[g],
            ),
    ensures
        psum(concat_lists(level, group), s) == total(group, f),
    decreases group.len(),
{
    if group.len() > 0 {
        let rest = group.drop_last();
        assert forall|g: int| 0 <= g < rest.len() implies psum(
            level.pairs_at(#[trigger] rest[g] as int),
            s,
        ) == f(rest[g]) by {
            assert(rest[g] == group[g]);
        }
        lemma_concat_value(level, s, rest, f);
        lemma_psum_append(concat_lists(level, rest), level.pairs_at(group.last() as int), s);
        assert(psum(level.pairs_at(group[group.len() - 1] as int), s) == f(group.last()));
    }
}

/// Lists with the same pairs are worth the same.
pub proof fn lemma_keys_value(a: Seq<InputPair>, b: Seq<InputPair>, s: Sides)
    requires
        keys(a).to_multiset() == keys(b).to_multiset(),
    ensures
        psum(a, s) == psum(b, s),
{
    let f = |p: InputPair| term(p, s);
    let g = |k: (u32, u32)|
        term(InputPair { left: LocalNodeIdx(k.0), right: LocalNodeIdx(k.1) }, s);
    lemma_psum_total(a, s);
    lemma_psum_total(b, s);
    lemma_total_same(a, keys(a), f, g);
    lemma_total_same(b, keys(b), f, g);
    lemma_total_perm(keys(a), keys(b), g);
}

/// The levels after twins were merged at `c`, given the levels before.
pub open spec fn merged_levels(
    a: Seq<TddLevel>,
    b: Seq<TddLevel>,
    vt: Vtree,
    c: int,
    p: int,
    side: ChildSide,
    ps: Seq<PlanSpec>,
) -> bool {
    let w = a[c].nodes@.len() as int;
    let target = targets(ps, w);
    let dup = redirects(ps, w);
    let s = surv(target, w);
    &&& differs_at(a, b, vt, c, p)
    &&& b[c].nodes@.len() == s.len()
    &&& forall|x: int|
        0 <= x < s.len() ==> #[trigger] b[c].pairs_at(x) == list_after(a[c], ps, s[x])
    &&& b[p].nodes@.len() == a[p].nodes@.len()
    &&& forall|n: int|
        0 <= n < a[p].nodes@.len() ==> #[trigger] b[p].pairs_at(n) == rewritten(
            a[p].pairs_at(n),
            side,
            target,
            dup,
        )
}

/// What the nodes of the level are worth after the merge, by their old index.
proof fn lemma_merged_child(
    level: TddLevel,
    ps: Seq<PlanSpec>,
    s: Sides,
    c0: Seq<nat>,
    c1: Seq<nat>,
)
    requires
        level.nodes@.len() < 0xffff_ffff,
        plans_wf(ps, level.nodes@.len() as int),
        redirect_equal(level, ps),
        c0 == Seq::new(level.nodes@.len(), |i: int| psum(level.pairs_at(i), s)),
        ({
            let w = level.nodes@.len() as int;
            let sv = surv(targets(ps, w), w);
            c1 == Seq::new(sv.len(), |x: int| psum(list_after(level, ps, sv[x]), s))
        }),
    ensures
        ({
            let w = level.nodes@.len() as int;
            let target = targets(ps, w);
            let dup = redirects(ps, w);
            let f = |x: u32| c0[x as int];
            forall|x: u32|
                x < w ==> #[trigger] gathered(f, ps, ps.len() as int)(x) == if target[x as int] == x
                    || dup[x as int] {
                    c1[remap(target, x as int)]
                } else {
                    0nat
                }
        }),
{
    let w = level.nodes@.len() as int;
    let target = targets(ps, w);
    let dup = redirects(ps, w);
    let f = |x: u32| c0[x as int];
    let n = ps.len() as int;
    let h = gathered(f, ps, n);
    let sv = surv(target, w);
    lemma_gathered(f, ps, w, n);
    lemma_settled(ps, w);
    assert forall|x: u32| x < w implies #[trigger] h(x) == if target[x as int] == x
        || dup[x as int] {
        c1[remap(target, x as int)]
    } else {
        0nat
    } by {
        lemma_target_fixed(ps, w, x as int);
        lemma_remap_bound(target, x as int);
        let r = remap(target, x as int);
        assert(sv[r] == target[x as int]);
        assert(c1[r] == psum(list_after(level, ps, target[x as int] as int), s));
        if moved(ps, x as int) {
            let (q, y) = choose|q: int, y: int| moved_by(ps, x as int, q, y);
            lemma_target_of(ps, w, q, y);
            assert(ps[q].members[y] == x);
            if ps[q].action == GroupAction::Concat {
                assert(h(ps[q].members[y]) == 0);
                assert(!dup[x as int]);
            } else {
                let k = ps[q].members[0] as int;
                assert(target[x as int] == k);
                assert(!joins(ps, n, x)) by {
                    if joins(ps, n, x) {
                        let (a, b) = choose|a: int, b: int|
                            0 <= a < n && 0 <= b < ps[a].members.len() && ps[a].action
                                == GroupAction::Concat && #[trigger] ps[a].members[b] == x;
                        assert(ps[a].members[b] == ps[q].members[y]);
                    }
                }
                assert(h(x) == f(x));
                assert forall|a: int| !grows_by(ps, k, a) by {
                    if grows_by(ps, k, a) {
                        assert(ps[a].members.len() >= 2);
                        assert(ps[a].members[0] == ps[q].members[0]);
                    }
                }
                assert(list_after(level, ps, k) == level.pairs_at(k));
                lemma_keys_value(level.pairs_at(x as int), level.pairs_at(k), s);
            }
        } else {
            assert(target[x as int] == x);
            if exists|q: int| grows_by(ps, x as int, q) {
                let q = choose|q: int| grows_by(ps, x as int, q);
                lemma_list_after(level, ps, w, q);
                let m = ps[q].members;
                assert forall|g: int| 0 <= g < m.len() implies psum(
                    level.pairs_at(#[trigger] m[g] as int),
                    s,
                ) == f(m[g]) by {
                    assert(ps[q].members[g] < w);
                }
                lemma_concat_value(level, s, m, f);
                assert(h(ps[q].members[0]) == total(ps[q].members, f));
            } else {
                assert(!joins(ps, n, x)) by {
                    if joins(ps, n, x) {
                        let (a, b) = choose|a: int, b: int|
                            0 <= a < n && 0 <= b < ps[a].members.len() && ps[a].action
                                == GroupAction::Concat && #[trigger] ps[a].members[b] == x;
                        if b == 0 {
                            assert(grows_by(ps, x as int, a));
                        } else {
                            assert(moved_by(ps, x as int, a, b));
                        }
                    }
                }
                assert(h(x) == f(x));
            }
        }
    }
}

/// Merging twins keeps every value: the column of every level but the merged
/// one is what it was, under every seed.
pub proof fn law_twin_merge_keeps_values(
    a: Seq<TddLevel>,
    b: Seq<TddLevel>,
    vt: Vtree,
    c: int,
    p: int,
    side: ChildSide,
    ps: Seq<PlanSpec>,
    seed: spec_fn(int, int) -> nat,
    t: int,
)
    requires
        levels_wf(a, vt),
        merged_levels(a, b, vt, c, p, side, ps),
        c == match side {
            ChildSide::Left => vt.left_at(p),
            ChildSide::Right => vt.right_at(p),
        },
        !vt.leaf_at(c),
        !a[c].marginal(),
        !a[p].marginal(),
        plans_wf(ps, a[c].nodes@.len() as int),
        concat_twins(a[p], side, ps),
        redirect_equal(a[c], ps),
        0 <= t < vt.n(),
        t != c,
    ensures
        col(b, vt, seed, t) == col(a, vt, seed, t),
{
    assert(vt.node_wf(p));
    assert(vt.node_wf(c));
    assert(a[c].wf());
    let w = a[c].nodes@.len() as int;
    let target = targets(ps, w);
    let dup = redirects(ps, w);
    let lc = vt.left_at(c);
    let rc = vt.right_at(c);
    assert(vt.node_wf(lc));
    assert(vt.node_wf(rc));
    lemma_frame_below(a, b, vt, seed, c, p, lc);
    lemma_frame_below(a, b, vt, seed, c, p, rc);
    assert(same_level(a[lc], b[lc]));
    assert(same_level(a[rc], b[rc]));
    lemma_col_internal(a, vt, seed, c);
    lemma_col_internal(b, vt, seed, c);
    let sc = sides(a, vt, seed, c);
    assert(sides(b, vt, seed, c) == sc);
    let c0 = col(a, vt, seed, c);
    let c1 = col(b, vt, seed, c);
    let sv = surv(target, w);
    assert(c1 =~= Seq::new(sv.len(), |x: int| psum(list_after(a[c], ps, sv[x]), sc)));
    lemma_merged_child(a[c], ps, sc, c0, c1);
    lemma_settled(ps, w);
    // The partner's level is untouched.
    let o = match side {
        ChildSide::Left => vt.right_at(p),
        ChildSide::Right => vt.left_at(p),
    };
    assert(vt.node_wf(o));
    lemma_frame_below(a, b, vt, seed, c, p, o);
    assert(same_level(a[o], b[o]));
    lemma_col_internal(a, vt, seed, p);
    lemma_col_internal(b, vt, seed, p);
    let sa = sides(a, vt, seed, p);
    let sb = sides(b, vt, seed, p);
    let wt = partner_val(sa, side);
    let f0 = |x: u32| c0[x as int];
    let f1 = |x: u32| c1[x as int];
    assert(refs_ok(a, vt, p));
    assert forall|n: int| 0 <= n < a[p].nodes@.len() implies psum(
        #[trigger] b[p].pairs_at(n),
        sb,
    ) == psum(a[p].pairs_at(n), sa) by {
        let list = a[p].pairs_at(n);
        assert(list_ok(a, vt, p, list));
        assert(side_below(list, side, w)) by {
            assert forall|k: int| 0 <= k < list.len() implies side_ref(#[trigger] list[k], side)
                < w by {
                assert(pair_ok(a, vt, p, list[k]));
            }
        }
        lemma_psum_wsum(list, sa, side);
        lemma_psum_wsum(b[p].pairs_at(n), sb, side);
        let h = gathered(f0, ps, ps.len() as int);
        lemma_gathered_wsum(a[p], n, side, wt, f0, ps, w, ps.len() as int);
        assert forall|x: u32| x < target.len() implies #[trigger] h(x) == if target[x as int] == x
            || dup[x as int] {
            f1(remap(target, x as int) as u32)
        } else {
            0nat
        } by {
            lemma_remap_bound(target, x as int);
            lemma_surv(target, w);
        }
        lemma_rewritten_wsum(list, side, target, dup, wt, h, f1);
        assert(partner_val(sb, side) =~= wt);
        assert(node_val(sb, side) =~= f1);
        assert(node_val(sa, side) =~= f0);
    }
    assert(col(a, vt, seed, p) =~= col(b, vt, seed, p));
    lemma_frame(a, b, vt, seed, c, p, t);
}

} // verus!
