//! Merging twins keeps what everything above them is worth.

use super::commit::{
    grows_by, lemma_list_after, lemma_remap_bound, lemma_settled, lemma_target_fixed,
    lemma_target_of, list_after, moved, moved_by, plans_wf, redirects, remap, settled, targets,
};
use super::fusion_weight::{exact_store, lemma_sum_append, lemma_sum_lowest, weighted_sum};
use super::merge::{concat_lists, lemma_surv, surv};
use super::plan::{keys, GroupAction, PlanSpec};
use super::rewrite::{renamed, rewritten, side_below, stays};
use super::twin_value::{
    concat_twins, joins, lemma_joins_less, merged_levels, redirect_equal, sibs, twins,
};
use crate::level::{other_ref, side_ref, ChildSide, InputPair, TddLevel};
use crate::minimize::worth::{
    changes_at, lemma_node_worth, lemma_worth_agree, lemma_worths_lowest, level_kept, refs_kept,
    seed_lowest, worth, worths,
};
use crate::rat_sums::{
    all_lowest, lemma_cancel, lemma_rat_sum_lowest, lemma_rat_sum_perm, lemma_rat_sum_same,
    lemma_swap, rat_sum,
};
use crate::rational::{lemma_ops_lowest, lemma_whole, Rat};
use crate::rational_laws::{
    lemma_plus_assoc, lemma_plus_zero, lemma_times_comm, lemma_times_plus, lemma_times_zero,
};
use crate::tdd::{differs_at, list_ok, pair_ok, ref_ok, refs_ok, same_level, Tdd};
use vstd::prelude::*;

verus! {

/// Giving the worth of `m` to `k` shifts it from the partners of the one to
/// those of the other.
proof fn lemma_shift(
    list: Seq<InputPair>,
    side: ChildSide,
    w: spec_fn(u32) -> Rat,
    f: spec_fn(u32) -> Rat,
    g: spec_fn(u32) -> Rat,
    k: u32,
    m: u32,
)
    requires
        all_lowest(w),
        all_lowest(f),
        all_lowest(g),
        k != m,
        g(k) == f(k).plus(f(m)),
        g(m) == Rat::whole(0),
        forall|x: u32| x != k && x != m ==> #[trigger] g(x) == f(x),
    ensures
        weighted_sum(list, side, w, g).plus(
            f(m).times(rat_sum(sibs(list, side, m as int), w)),
        ) == weighted_sum(list, side, w, f).plus(
            f(m).times(rat_sum(sibs(list, side, k as int), w)),
        ),
    decreases list.len(),
{
    let v = f(m);
    if list.len() > 0 {
        let rest = list.drop_last();
        lemma_shift(rest, side, w, f, g, k, m);
        let x = side_ref(list.last(), side);
        let y = other_ref(list.last(), side);
        let sm = sibs(rest, side, m as int);
        let sk = sibs(rest, side, k as int);
        let tm = rat_sum(sm, w);
        let tk = rat_sum(sk, w);
        let sg = weighted_sum(rest, side, w, g);
        let sf = weighted_sum(rest, side, w, f);
        let at = v.times(tm);
        let bt = v.times(tk);
        let u = w(y);
        let vu = v.times(u);
        lemma_sum_lowest(rest, side, w, g);
        lemma_sum_lowest(rest, side, w, f);
        lemma_rat_sum_lowest(sm, w);
        lemma_rat_sum_lowest(sk, w);
        assert(u.lowest() && v.lowest() && f(x).lowest() && g(x).lowest());
        lemma_ops_lowest(v, tm);
        lemma_ops_lowest(v, tk);
        lemma_ops_lowest(v, u);
        lemma_ops_lowest(u, f(x));
        lemma_times_comm(u, v);
        assert(sm.push(y).drop_last() =~= sm);
        assert(sk.push(y).drop_last() =~= sk);
        if x == m {
            lemma_times_zero(u);
            lemma_plus_zero(sg);
            lemma_times_plus(v, tm, u);
            lemma_plus_assoc(sg, at, vu);
            lemma_swap(sf, bt, vu);
        } else if x == k {
            let uf = u.times(f(x));
            lemma_times_plus(u, f(x), v);
            lemma_times_plus(v, tk, u);
            lemma_plus_assoc(sg, uf, vu);
            lemma_ops_lowest(sg, uf);
            lemma_swap(sg.plus(uf), vu, at);
            lemma_swap(sg, uf, at);
            lemma_swap(sf, bt, uf);
            lemma_ops_lowest(sf, uf);
            lemma_plus_assoc(sf.plus(uf), bt, vu);
        } else {
            assert(g(x) == f(x));
            lemma_swap(sg, u.times(f(x)), at);
            lemma_swap(sf, u.times(f(x)), bt);
        }
    }
}

/// Where the partners are the same, nothing changes.
proof fn lemma_absorb(
    list: Seq<InputPair>,
    side: ChildSide,
    w: spec_fn(u32) -> Rat,
    f: spec_fn(u32) -> Rat,
    g: spec_fn(u32) -> Rat,
    k: u32,
    m: u32,
)
    requires
        all_lowest(w),
        all_lowest(f),
        all_lowest(g),
        k != m,
        g(k) == f(k).plus(f(m)),
        g(m) == Rat::whole(0),
        forall|x: u32| x != k && x != m ==> #[trigger] g(x) == f(x),
        sibs(list, side, k as int).to_multiset() == sibs(list, side, m as int).to_multiset(),
    ensures
        weighted_sum(list, side, w, g) == weighted_sum(list, side, w, f),
{
    let sm = sibs(list, side, m as int);
    lemma_shift(list, side, w, f, g, k, m);
    lemma_rat_sum_perm(sibs(list, side, k as int), sm, w);
    lemma_rat_sum_lowest(sm, w);
    assert(f(m).lowest());
    lemma_ops_lowest(f(m), rat_sum(sm, w));
    lemma_sum_lowest(list, side, w, g);
    lemma_sum_lowest(list, side, w, f);
    lemma_cancel(
        weighted_sum(list, side, w, g),
        weighted_sum(list, side, w, f),
        f(m).times(rat_sum(sm, w)),
    );
}

/// `f` with the worths of the first `j` members gathered at the first.
spec fn gather(f: spec_fn(u32) -> Rat, members: Seq<u32>, j: int) -> spec_fn(u32) -> Rat
    decreases j,
{
    if j <= 1 {
        f
    } else {
        let g = gather(f, members, j - 1);
        |x: u32|
            if x == members[0] {
                g(members[0]).plus(f(members[j - 1]))
            } else if x == members[j - 1] {
                Rat::whole(0)
            } else {
                g(x)
            }
    }
}

/// What gathering leaves at each node.
proof fn lemma_gather(f: spec_fn(u32) -> Rat, members: Seq<u32>, j: int)
    requires
        all_lowest(f),
        1 <= j <= members.len(),
        forall|a: int, b: int| 0 <= a < b < members.len() ==> members[a] != members[b],
    ensures
        all_lowest(gather(f, members, j)),
        gather(f, members, j)(members[0]) == rat_sum(members.take(j), f),
        forall|y: int|
            1 <= y < j ==> gather(f, members, j)(#[trigger] members[y]) == Rat::whole(0),
        forall|x: u32|
            (forall|y: int| 0 <= y < j ==> members[y] != x) ==> #[trigger] gather(f, members, j)(x)
                == f(x),
    decreases j,
{
    lemma_whole(0);
    if j == 1 {
        assert(members.take(1) =~= seq![members[0]]);
        assert(members.take(1).drop_last() =~= Seq::<u32>::empty());
        assert(rat_sum(members.take(1).drop_last(), f) == Rat::whole(0));
        assert(f(members[0]).lowest());
        lemma_plus_zero(f(members[0]));
    } else {
        lemma_gather(f, members, j - 1);
        let g = gather(f, members, j - 1);
        let h = gather(f, members, j);
        assert(members.take(j) =~= members.take(j - 1).push(members[j - 1]));
        assert(members.take(j).drop_last() =~= members.take(j - 1));
        assert(members[0] != members[j - 1]);
        assert forall|x: u32| (#[trigger] h(x)).lowest() by {
            assert(g(x).lowest() && g(members[0]).lowest() && f(members[j - 1]).lowest());
            lemma_ops_lowest(g(members[0]), f(members[j - 1]));
        }
        assert forall|y: int| 1 <= y < j implies h(#[trigger] members[y]) == Rat::whole(0) by {
            assert(members[0] != members[y]);
            if y < j - 1 {
                assert(members[y] != members[j - 1]);
                assert(g(members[y]) == Rat::whole(0));
            }
        }
        assert forall|x: u32|
            (forall|y: int| 0 <= y < j ==> members[y] != x) implies #[trigger] h(x) == f(x) by {
            assert(members[0] != x);
            assert(members[j - 1] != x);
            assert(g(x) == f(x));
        }
    }
}

/// Gathering twins changes no list's worth.
proof fn lemma_gather_sum(
    list: Seq<InputPair>,
    side: ChildSide,
    w: spec_fn(u32) -> Rat,
    f: spec_fn(u32) -> Rat,
    members: Seq<u32>,
    j: int,
)
    requires
        all_lowest(w),
        all_lowest(f),
        1 <= j <= members.len(),
        forall|a: int, b: int| 0 <= a < b < members.len() ==> members[a] != members[b],
        forall|x: int|
            0 <= x < members.len() ==> sibs(list, side, members[0] as int).to_multiset() == sibs(
                list,
                side,
                #[trigger] members[x] as int,
            ).to_multiset(),
    ensures
        weighted_sum(list, side, w, gather(f, members, j)) == weighted_sum(list, side, w, f),
    decreases j,
{
    if j > 1 {
        lemma_gather_sum(list, side, w, f, members, j - 1);
        lemma_gather(f, members, j - 1);
        lemma_gather(f, members, j);
        let g = gather(f, members, j - 1);
        let h = gather(f, members, j);
        let m = members[j - 1];
        assert(members[0] != m);
        assert(g(m) == f(m)) by {
            assert forall|y: int| 0 <= y < j - 1 implies members[y] != m by {}
        }
        lemma_absorb(list, side, w, g, h, members[0], m);
    }
}

/// The worth of every node with the first `k` concatenations gathered.
spec fn gathered(f: spec_fn(u32) -> Rat, ps: Seq<PlanSpec>, k: int) -> spec_fn(u32) -> Rat
    decreases k,
{
    if k <= 0 {
        f
    } else if ps[k - 1].action == GroupAction::Concat {
        gather(gathered(f, ps, k - 1), ps[k - 1].members, ps[k - 1].members.len() as int)
    } else {
        gathered(f, ps, k - 1)
    }
}

/// What gathering all groups leaves at each node.
proof fn lemma_gathered(f: spec_fn(u32) -> Rat, ps: Seq<PlanSpec>, width: int, k: int)
    requires
        all_lowest(f),
        plans_wf(ps, width),
        0 <= k <= ps.len(),
    ensures
        all_lowest(gathered(f, ps, k)),
        forall|q: int|
            0 <= q < k && (#[trigger] ps[q]).action == GroupAction::Concat ==> gathered(
                f,
                ps,
                k,
            )(ps[q].members[0]) == rat_sum(ps[q].members, f),
        forall|q: int, y: int|
            0 <= q < k && ps[q].action == GroupAction::Concat && 1 <= y < ps[q].members.len()
                ==> gathered(f, ps, k)(#[trigger] ps[q].members[y]) == Rat::whole(0),
        forall|x: u32| !joins(ps, k, x) ==> #[trigger] gathered(f, ps, k)(x) == f(x),
    decreases k,
{
    if k > 0 {
        lemma_gathered(f, ps, width, k - 1);
        let g = gathered(f, ps, k - 1);
        let h = gathered(f, ps, k);
        let m = ps[k - 1].members;
        assert(m.len() >= 2);
        if ps[k - 1].action == GroupAction::Concat {
            assert forall|a: int, b: int| 0 <= a < b < m.len() implies m[a] != m[b] by {
                assert(ps[k - 1].members[a] == m[a]);
                assert(ps[k - 1].members[b] == m[b]);
            }
            lemma_gather(g, m, m.len() as int);
            assert(m.take(m.len() as int) =~= m);
            assert forall|y: int| 0 <= y < m.len() implies g(#[trigger] m[y]) == f(m[y]) by {
                assert(!joins(ps, k - 1, m[y])) by {
                    if joins(ps, k - 1, m[y]) {
                        let (q, z) = choose|q: int, z: int|
                            0 <= q < k - 1 && 0 <= z < ps[q].members.len() && ps[q].action
                                == GroupAction::Concat && #[trigger] ps[q].members[z] == m[y];
                        assert(ps[q].members[z] == ps[k - 1].members[y]);
                    }
                }
            }
            lemma_rat_sum_same(m, m, g, f);
            assert forall|q: int| 0 <= q < k && (#[trigger] ps[q]).action
                == GroupAction::Concat implies h(ps[q].members[0]) == rat_sum(ps[q].members, f) by {
                if q < k - 1 {
                    assert(ps[q].members.len() >= 2);
                    let x = ps[q].members[0];
                    assert forall|y: int| 0 <= y < m.len() implies m[y] != x by {
                        assert(ps[k - 1].members[y] == m[y]);
                    }
                    assert(h(x) == g(x));
                }
            }
            assert forall|q: int, y: int|
                0 <= q < k && ps[q].action == GroupAction::Concat && 1 <= y
                    < ps[q].members.len() implies h(#[trigger] ps[q].members[y]) == Rat::whole(
                0,
            ) by {
                if q < k - 1 {
                    let x = ps[q].members[y];
                    assert forall|z: int| 0 <= z < m.len() implies m[z] != x by {
                        assert(ps[k - 1].members[z] == m[z]);
                    }
                    assert(h(x) == g(x));
                } else {
                    assert(h(m[y]) == Rat::whole(0));
                }
            }
            assert forall|x: u32| !joins(ps, k, x) implies #[trigger] h(x) == f(x) by {
                assert forall|z: int| 0 <= z < m.len() implies m[z] != x by {
                    assert(ps[k - 1].members[z] == m[z]);
                }
                lemma_joins_less(ps, k - 1, x);
                assert(h(x) == g(x));
                assert(g(x) == f(x));
            }
        } else {
            assert forall|x: u32| !joins(ps, k, x) implies #[trigger] h(x) == f(x) by {
                lemma_joins_less(ps, k - 1, x);
                assert(g(x) == f(x));
            }
        }
    }
}

/// Gathering all groups changes no list's worth.
proof fn lemma_gathered_sum(
    parent: TddLevel,
    n: int,
    side: ChildSide,
    w: spec_fn(u32) -> Rat,
    f: spec_fn(u32) -> Rat,
    ps: Seq<PlanSpec>,
    width: int,
    k: int,
)
    requires
        all_lowest(w),
        all_lowest(f),
        0 <= n < parent.nodes@.len(),
        plans_wf(ps, width),
        concat_twins(parent, side, ps),
        0 <= k <= ps.len(),
    ensures
        weighted_sum(parent.pairs_at(n), side, w, gathered(f, ps, k)) == weighted_sum(
            parent.pairs_at(n),
            side,
            w,
            f,
        ),
    decreases k,
{
    if k > 0 {
        lemma_gathered_sum(parent, n, side, w, f, ps, width, k - 1);
        lemma_gathered(f, ps, width, k - 1);
        if ps[k - 1].action == GroupAction::Concat {
            let m = ps[k - 1].members;
            assert(m.len() >= 2);
            assert forall|a: int, b: int| 0 <= a < b < m.len() implies m[a] != m[b] by {
                assert(ps[k - 1].members[a] == m[a]);
                assert(ps[k - 1].members[b] == m[b]);
            }
            let list = parent.pairs_at(n);
            assert forall|x: int| 0 <= x < m.len() implies sibs(
                list,
                side,
                m[0] as int,
            ).to_multiset() == sibs(list, side, #[trigger] m[x] as int).to_multiset() by {
                assert(twins(parent, side, ps[k - 1].members[0] as int, ps[k - 1].members[x] as int));
            }
            lemma_gather_sum(list, side, w, gathered(f, ps, k - 1), m, m.len() as int);
        }
    }
}

/// The worth of a rewritten list, in the terms of the list it came from.
proof fn lemma_rewritten_sum(
    list: Seq<InputPair>,
    side: ChildSide,
    target: Seq<u32>,
    dup: Seq<bool>,
    w: spec_fn(u32) -> Rat,
    h: spec_fn(u32) -> Rat,
    f: spec_fn(u32) -> Rat,
)
    requires
        all_lowest(w),
        all_lowest(h),
        side_below(list, side, target.len() as int),
        target.len() < u32::MAX,
        settled(target),
        forall|x: u32|
            x < target.len() ==> #[trigger] h(x) == if target[x as int] == x || dup[x as int] {
                f(remap(target, x as int) as u32)
            } else {
                Rat::whole(0)
            },
    ensures
        weighted_sum(rewritten(list, side, target, dup), side, w, f) == weighted_sum(
            list,
            side,
            w,
            h,
        ),
    decreases list.len(),
{
    if list.len() > 0 {
        let rest = list.drop_last();
        assert(side_below(rest, side, target.len() as int)) by {
            assert forall|k: int| 0 <= k < rest.len() implies side_ref(#[trigger] rest[k], side)
                < target.len() by {
                assert(rest[k] == list[k]);
            }
        }
        lemma_rewritten_sum(rest, side, target, dup, w, h, f);
        let p = list.last();
        let x = side_ref(p, side);
        assert(x < target.len()) by {
            assert(list[list.len() - 1] == p);
        }
        let done = rewritten(rest, side, target, dup);
        assert(h(x) == if target[x as int] == x || dup[x as int] {
            f(remap(target, x as int) as u32)
        } else {
            Rat::whole(0)
        });
        if stays(p, side, target, dup) {
            let q = renamed(p, side, target);
            assert(done.push(q).drop_last() =~= done);
            assert(done.push(q).last() == q);
            assert(other_ref(q, side) == other_ref(p, side));
            assert(side_ref(q, side) == remap(target, x as int) as u32);
        } else {
            assert(w(other_ref(p, side)).lowest());
            lemma_times_zero(w(other_ref(p, side)));
            lemma_sum_lowest(rest, side, w, h);
            lemma_plus_zero(weighted_sum(rest, side, w, h));
        }
    }
}

/// The worth of a concatenation of lists.
proof fn lemma_concat_sum(
    level: TddLevel,
    xv: spec_fn(u32) -> Rat,
    wv: spec_fn(u32) -> Rat,
    group: Seq<u32>,
    f: spec_fn(u32) -> Rat,
)
    requires
        all_lowest(xv),
        all_lowest(wv),
        forall|g: int|
            0 <= g < group.len() ==> weighted_sum(
                level.pairs_at(#[trigger] group[g] as int),
                ChildSide::Right,
                xv,
                wv,
            ) == f(group[g]),
    ensures
        weighted_sum(concat_lists(level, group), ChildSide::Right, xv, wv) == rat_sum(group, f),
    decreases group.len(),
{
    if group.len() > 0 {
        let rest = group.drop_last();
        assert forall|g: int| 0 <= g < rest.len() implies weighted_sum(
            level.pairs_at(#[trigger] rest[g] as int),
            ChildSide::Right,
            xv,
            wv,
        ) == f(rest[g]) by {
            assert(rest[g] == group[g]);
        }
        lemma_concat_sum(level, xv, wv, rest, f);
        lemma_sum_append(
            concat_lists(level, rest),
            level.pairs_at(group.last() as int),
            ChildSide::Right,
            xv,
            wv,
        );
        assert(weighted_sum(
            level.pairs_at(group[group.len() - 1] as int),
            ChildSide::Right,
            xv,
            wv,
        ) == f(group.last()));
    }
}

/// A list's worth is a sum over its keys.
proof fn lemma_keys_total(
    a: Seq<InputPair>,
    xv: spec_fn(u32) -> Rat,
    wv: spec_fn(u32) -> Rat,
)
    ensures
        weighted_sum(a, ChildSide::Right, xv, wv) == rat_sum(
            keys(a),
            |k: (u32, u32)| xv(k.0).times(wv(k.1)),
        ),
    decreases a.len(),
{
    if a.len() > 0 {
        lemma_keys_total(a.drop_last(), xv, wv);
        assert(keys(a).drop_last() =~= keys(a.drop_last()));
    }
}

/// Lists with the same pairs are worth the same.
pub proof fn lemma_keys_worth(
    a: Seq<InputPair>,
    b: Seq<InputPair>,
    xv: spec_fn(u32) -> Rat,
    wv: spec_fn(u32) -> Rat,
)
    requires
        all_lowest(xv),
        all_lowest(wv),
        keys(a).to_multiset() == keys(b).to_multiset(),
    ensures
        weighted_sum(a, ChildSide::Right, xv, wv) == weighted_sum(b, ChildSide::Right, xv, wv),
{
    let f = |k: (u32, u32)| xv(k.0).times(wv(k.1));
    lemma_keys_total(a, xv, wv);
    lemma_keys_total(b, xv, wv);
    assert forall|k: (u32, u32)| (#[trigger] f(k)).lowest() by {
        assert(xv(k.0).lowest() && wv(k.1).lowest());
        lemma_ops_lowest(xv(k.0), wv(k.1));
    }
    lemma_rat_sum_perm(keys(a), keys(b), f);
}

/// What the nodes of the level are worth after the merge, by their old index.
proof fn lemma_merged_child(
    level: TddLevel,
    ps: Seq<PlanSpec>,
    xv: spec_fn(u32) -> Rat,
    wv: spec_fn(u32) -> Rat,
    f: spec_fn(u32) -> Rat,
    f1: spec_fn(u32) -> Rat,
)
    requires
        all_lowest(xv),
        all_lowest(wv),
        all_lowest(f),
        level.nodes@.len() < 0xffff_ffff,
        plans_wf(ps, level.nodes@.len() as int),
        redirect_equal(level, ps),
        forall|x: u32|
            x < level.nodes@.len() ==> #[trigger] f(x) == weighted_sum(
                level.pairs_at(x as int),
                ChildSide::Right,
                xv,
                wv,
            ),
        ({
            let w = level.nodes@.len() as int;
            let sv = surv(targets(ps, w), w);
            forall|x: u32|
                x < sv.len() ==> #[trigger] f1(x) == weighted_sum(
                    list_after(level, ps, sv[x as int]),
                    ChildSide::Right,
                    xv,
                    wv,
                )
        }),
    ensures
        ({
            let w = level.nodes@.len() as int;
            let target = targets(ps, w);
            let dup = redirects(ps, w);
            forall|x: u32|
                x < w ==> #[trigger] gathered(f, ps, ps.len() as int)(x) == if target[x as int] == x
                    || dup[x as int] {
                    f1(remap(target, x as int) as u32)
                } else {
                    Rat::whole(0)
                }
        }),
{
    let w = level.nodes@.len() as int;
    let target = targets(ps, w);
    let dup = redirects(ps, w);
    let n = ps.len() as int;
    let h = gathered(f, ps, n);
    let sv = surv(target, w);
    lemma_gathered(f, ps, w, n);
    lemma_settled(ps, w);
    lemma_surv(target, w);
    assert forall|x: u32| x < w implies #[trigger] h(x) == if target[x as int] == x
        || dup[x as int] {
        f1(remap(target, x as int) as u32)
    } else {
        Rat::whole(0)
    } by {
        lemma_target_fixed(ps, w, x as int);
        lemma_remap_bound(target, x as int);
        let r = remap(target, x as int);
        assert(sv[r] == target[x as int]);
        assert(f1(r as u32) == weighted_sum(
            list_after(level, ps, target[x as int] as int),
            ChildSide::Right,
            xv,
            wv,
        ));
        if moved(ps, x as int) {
            let (q, y) = choose|q: int, y: int| moved_by(ps, x as int, q, y);
            lemma_target_of(ps, w, q, y);
            assert(ps[q].members[y] == x);
            if ps[q].action == GroupAction::Concat {
                assert(h(ps[q].members[y]) == Rat::whole(0));
                assert(!dup[x as int]);
            } else {
                let k = ps[q].members[0] as int;
                assert(target[x as int] == k);
                assert(!joins(ps, n, x)) by {
                    if joins(ps, n, x) {
                        let (a, b) = choose|a: int, b: int|
                            0 <= a < n && 0 <= b < ps[a].members.len() && ps[a].action
                                == GroupAction::Concat && #[trigger] ps[a].members[b] == x;
                        assert(ps[a].members[b] == ps[q].members[y]);
                    }
                }
                assert(h(x) == f(x));
                assert forall|a: int| !grows_by(ps, k, a) by {
                    if grows_by(ps, k, a) {
                        assert(ps[a].members.len() >= 2);
                        assert(ps[a].members[0] == ps[q].members[0]);
                    }
                }
                assert(list_after(level, ps, k) == level.pairs_at(k));
                lemma_keys_worth(level.pairs_at(x as int), level.pairs_at(k), xv, wv);
            }
        } else {
            assert(target[x as int] == x);
            if exists|q: int| grows_by(ps, x as int, q) {
                let q = choose|q: int| grows_by(ps, x as int, q);
                lemma_list_after(level, ps, w, q);
                let m = ps[q].members;
                assert forall|g: int| 0 <= g < m.len() implies weighted_sum(
                    level.pairs_at(#[trigger] m[g] as int),
                    ChildSide::Right,
                    xv,
                    wv,
                ) == f(m[g]) by {
                    assert(ps[q].members[g] < w);
                }
                lemma_concat_sum(level, xv, wv, m, f);
                assert(h(ps[q].members[0]) == rat_sum(ps[q].members, f));
            } else {
                assert(!joins(ps, n, x)) by {
                    if joins(ps, n, x) {
                        let (a, b) = choose|a: int, b: int|
                            0 <= a < n && 0 <= b < ps[a].members.len() && ps[a].action
                                == GroupAction::Concat && #[trigger] ps[a].members[b] == x;
                        if b == 0 {
                            assert(grows_by(ps, x as int, a));
                        } else {
                            assert(moved_by(ps, x as int, a, b));
                        }
                    }
                }
                assert(h(x) == f(x));
            }
        }
    }
}

/// A list's worth does not depend on the side that is named first.
pub proof fn lemma_side_sum(
    list: Seq<InputPair>,
    lv: spec_fn(u32) -> Rat,
    rv: spec_fn(u32) -> Rat,
)
    ensures
        weighted_sum(list, ChildSide::Left, rv, lv) == weighted_sum(
            list,
            ChildSide::Right,
            lv,
            rv,
        ),
    decreases list.len(),
{
    if list.len() > 0 {
        lemma_side_sum(list.drop_last(), lv, rv);
        lemma_times_comm(lv(list.last().left.0), rv(list.last().right.0));
    }
}

/// The same store is worth the same.
pub proof fn lemma_same_refs(a: Tdd, b: Tdd, seed: spec_fn(int, int) -> Rat, t: int)
    requires
        b.vtree == a.vtree,
        b.weights == a.weights,
        a.levels@[t].marginal(),
        b.levels@[t].same_store(a.levels@[t]) || a.levels@[t].same_store(b.levels@[t]),
    ensures
        refs_kept(a, b, seed, t),
{
    assert forall|raw: u32| ref_ok(a.levels@, *a.vtree, t, raw) implies #[trigger] worth(
        b,
        seed,
        t,
        raw,
    ) == worth(a, seed, t, raw) by {}
}

/// Merging twins keeps what every level but the merged one is worth.
pub proof fn law_twin_merge_keeps_worth(
    a: Tdd,
    b: Tdd,
    c: int,
    p: int,
    side: ChildSide,
    ps: Seq<PlanSpec>,
    seed: spec_fn(int, int) -> Rat,
    t: int,
)
    requires
        a.wf(),
        a.weights_wf(),
        exact_store(a),
        seed_lowest(seed),
        b.vtree == a.vtree,
        b.weights == a.weights,
        merged_levels(a.levels@, b.levels@, *a.vtree, c, p, side, ps),
        c == match side {
            ChildSide::Left => a.vtree.left_at(p),
            ChildSide::Right => a.vtree.right_at(p),
        },
        !a.vtree.leaf_at(c),
        !a.vtree.leaf_at(p),
        !a.levels@[c].marginal(),
        !a.levels@[p].marginal(),
        plans_wf(ps, a.levels@[c].nodes@.len() as int),
        concat_twins(a.levels@[p], side, ps),
        redirect_equal(a.levels@[c], ps),
        0 <= t < a.vtree.n(),
        t != c,
    ensures
        refs_kept(a, b, seed, t),
{
    let vt = a.vt();
    let la = a.levels@;
    let lb = b.levels@;
    assert(vt.node_wf(p));
    assert(vt.node_wf(c));
    assert(la[c].wf());
    let w = la[c].nodes@.len() as int;
    let target = targets(ps, w);
    let dup = redirects(ps, w);
    let lc = vt.left_at(c);
    let rc = vt.right_at(c);
    let o = match side {
        ChildSide::Left => vt.right_at(p),
        ChildSide::Right => vt.left_at(p),
    };
    assert(vt.node_wf(lc) && vt.node_wf(rc) && vt.node_wf(o));
    assert(changes_at(a, b, seed, p, c)) by {
        assert forall|u: int| 0 <= u < vt.n() && u != p && u != c implies level_kept(
            #[trigger] la[u],
            lb[u],
        ) && (la[u].marginal() ==> refs_kept(a, b, seed, u)) by {
            assert(same_level(la[u], lb[u]));
            if la[u].marginal() {
                lemma_same_refs(a, b, seed, u);
            }
        }
    }
    // Everything below the two changed levels is as it was.
    lemma_below(a, b, seed, p, c, lc);
    lemma_below(a, b, seed, p, c, rc);
    lemma_below(a, b, seed, p, c, o);
    let xv = worths(a, seed, lc);
    let wv = worths(a, seed, rc);
    let f0 = worths(a, seed, c);
    let f1 = worths(b, seed, c);
    lemma_worths_lowest(a, seed, lc);
    lemma_worths_lowest(a, seed, rc);
    lemma_worths_lowest(a, seed, c);
    lemma_worths_lowest(a, seed, o);
    lemma_settled(ps, w);
    lemma_surv(target, w);
    let sv = surv(target, w);
    assert forall|x: u32| x < w implies #[trigger] f0(x) == weighted_sum(
        la[c].pairs_at(x as int),
        ChildSide::Right,
        xv,
        wv,
    ) by {
        lemma_node_worth(a, seed, c, x);
    }
    assert forall|x: u32| x < sv.len() implies #[trigger] f1(x) == weighted_sum(
        list_after(la[c], ps, sv[x as int]),
        ChildSide::Right,
        xv,
        wv,
    ) by {
        lemma_node_worth(b, seed, c, x);
        assert(lb[c].pairs_at(x as int) == list_after(la[c], ps, sv[x as int]));
    }
    lemma_merged_child(la[c], ps, xv, wv, f0, f1);
    let h = gathered(f0, ps, ps.len() as int);
    lemma_gathered(f0, ps, w, ps.len() as int);
    let wt = worths(a, seed, o);
    assert(refs_ok(la, vt, p));
    assert forall|raw: u32| ref_ok(la, vt, p, raw) implies #[trigger] worth(b, seed, p, raw)
        == worth(a, seed, p, raw) by {
        let n = raw as int;
        let list = la[p].pairs_at(n);
        assert(list_ok(la, vt, p, list));
        assert(side_below(list, side, w)) by {
            assert forall|k: int| 0 <= k < list.len() implies side_ref(#[trigger] list[k], side)
                < w by {
                assert(pair_ok(la, vt, p, list[k]));
            }
        }
        lemma_gathered_sum(la[p], n, side, wt, f0, ps, w, ps.len() as int);
        lemma_rewritten_sum(list, side, target, dup, wt, h, f1);
        lemma_node_worth(a, seed, p, raw);
        lemma_node_worth(b, seed, p, raw);
        assert(lb[p].pairs_at(n) == rewritten(list, side, target, dup));
        if side == ChildSide::Left {
            lemma_side_sum(list, f0, wt);
            lemma_side_sum(lb[p].pairs_at(n), f1, wt);
        }
    }
    lemma_worth_agree(a, b, seed, p, c, t);
}

/// What lies below the parent, apart from the changed child, is worth what it
/// was.
proof fn lemma_below(a: Tdd, b: Tdd, seed: spec_fn(int, int) -> Rat, p: int, c: int, t: int)
    requires
        a.wf(),
        b.vtree == a.vtree,
        b.weights == a.weights,
        differs_at(a.levels@, b.levels@, *a.vtree, c, p),
        0 <= t < a.vtree.n(),
        a.vtree.rank_at(t) < a.vtree.rank_at(p),
        t != c,
    ensures
        worths(b, seed, t) == worths(a, seed, t),
    decreases a.vtree.rank_at(t),
{
    let vt = a.vt();
    assert(vt.node_wf(t));
    assert(same_level(a.levels@[t], b.levels@[t]));
    if !vt.leaf_at(t) && !a.levels@[t].marginal() {
        let l = vt.left_at(t);
        let r = vt.right_at(t);
        assert(vt.node_wf(l) && vt.node_wf(r));
        lemma_below(a, b, seed, p, c, l);
        lemma_below(a, b, seed, p, c, r);
    }
    assert(worths(b, seed, t) =~= worths(a, seed, t));
}

} // verus!
