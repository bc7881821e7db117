//! What fusion leaves behind: one pair for each child whose pairs it fused.

use super::p_fusion::{
    boundary_fused, fused_list, fusions_fit, groups_upto, has_x, kept, lemma_fit_all,
    lemma_margs_push, lemma_picks_from, lemma_step_fit, lemma_xs, level_groups, margs_of, mode_of,
    node_groups, pair_of, picks, step_groups, usable_groups, xs_of, FusedPair, FusionGroup,
};
use crate::level::{other_ref, side_ref, ChildSide, InputPair, TddLevel};
use crate::tdd::Tdd;
use vstd::prelude::*;

verus! {

/// The counted sides of two lists, one after the other.
proof fn lemma_margs_append(a: Seq<InputPair>, b: Seq<InputPair>, side: ChildSide, x: u32)
    ensures
        margs_of(a + b, side, x) == margs_of(a, side, x) + margs_of(b, side, x),
    decreases b.len(),
{
    if b.len() == 0 {
        assert(a + b =~= a);
        assert(margs_of(a, side, x) + Seq::<u32>::empty() =~= margs_of(a, side, x));
    } else {
        let front = b.drop_last();
        lemma_margs_append(a, front, side, x);
        assert(b =~= front.push(b.last()));
        assert(a + b =~= (a + front).push(b.last()));
        lemma_margs_push(front, side, b.last(), x);
        lemma_margs_push(a + front, side, b.last(), x);
        if other_ref(b.last(), side) == x {
            assert((margs_of(a, side, x) + margs_of(front, side, x)).push(
                side_ref(b.last(), side),
            ) =~= margs_of(a, side, x) + margs_of(front, side, x).push(side_ref(b.last(), side)));
        }
    }
}

/// The pairs that stay are those of the children that were not fused.
proof fn lemma_margs_kept(list: Seq<InputPair>, side: ChildSide, ps: Seq<FusedPair>, x: u32)
    ensures
        margs_of(kept(list, side, ps), side, x) == if has_x(ps, x) {
            Seq::<u32>::empty()
        } else {
            margs_of(list, side, x)
        },
    decreases list.len(),
{
    if list.len() > 0 {
        let front = list.drop_last();
        let p = list.last();
        lemma_margs_kept(front, side, ps, x);
        assert(list =~= front.push(p));
        lemma_margs_push(front, side, p, x);
        lemma_margs_push(kept(front, side, ps), side, p, x);
    }
}

/// The new pairs hold one reference for each fused child.
proof fn lemma_margs_new(ps: Seq<FusedPair>, side: ChildSide, x: u32)
    requires
        forall|i: int, j: int| 0 <= i < j < ps.len() ==> ps[i].x_idx != ps[j].x_idx,
    ensures
        ({
            let new = margs_of(ps.map_values(|f: FusedPair| pair_of(side, f)), side, x);
            &&& !has_x(ps, x) ==> new.len() == 0
            &&& forall|i: int|
                0 <= i < ps.len() && (#[trigger] ps[i]).x_idx == x ==> new == seq![ps[i].new_ref]
        }),
    decreases ps.len(),
{
    let make = |f: FusedPair| pair_of(side, f);
    let new = ps.map_values(make);
    if ps.len() > 0 {
        let front = ps.drop_last();
        let f = ps.last();
        assert forall|i: int, j: int| 0 <= i < j < front.len() implies front[i].x_idx
            != front[j].x_idx by {
            assert(ps[i].x_idx != ps[j].x_idx);
        }
        lemma_margs_new(front, side, x);
        assert(new =~= front.map_values(make).push(pair_of(side, f)));
        lemma_margs_push(front.map_values(make), side, pair_of(side, f), x);
        assert(ps[ps.len() - 1] == f);
        if has_x(front, x) {
            let i = choose|i: int| 0 <= i < front.len() && (#[trigger] front[i]).x_idx == x;
            assert(ps[i].x_idx == x);
        }
        if f.x_idx == x {
            if has_x(front, x) {
                let i = choose|i: int| 0 <= i < front.len() && (#[trigger] front[i]).x_idx == x;
                assert(ps[i].x_idx != ps[ps.len() - 1].x_idx);
            }
            assert(margs_of(new, side, x) =~= seq![f.new_ref]);
        }
        assert forall|i: int| 0 <= i < ps.len() && (#[trigger] ps[i]).x_idx == x implies margs_of(
            new,
            side,
            x,
        ) == seq![ps[i].new_ref] by {
            if i < front.len() {
                assert(front[i].x_idx == x);
                assert(f.x_idx != x);
            }
        }
    }
}

/// The fusions of one node are among those of the level, for different
/// children.
pub proof fn lemma_picks(level: TddLevel, side: ChildSide, fs: Seq<FusedPair>, n: int, k: int)
    requires
        fusions_fit(level, side, fs),
        0 <= k <= fs.len(),
    ensures
        forall|i: int|
            0 <= i < picks(fs, n, k).len() ==> exists|j: int|
                0 <= j < k && fs[j] == #[trigger] picks(fs, n, k)[i] && fs[j].node_idx == n,
        forall|i: int, j: int|
            0 <= i < j < picks(fs, n, k).len() ==> picks(fs, n, k)[i].x_idx != picks(
                fs,
                n,
                k,
            )[j].x_idx,
        forall|j: int|
            0 <= j < k && (#[trigger] fs[j]).node_idx == n ==> picks(fs, n, k).contains(fs[j]),
    decreases k,
{
    if k > 0 {
        lemma_picks(level, side, fs, n, k - 1);
        let front = picks(fs, n, k - 1);
        let all = picks(fs, n, k);
        if fs[k - 1].node_idx == n {
            assert(all == front.push(fs[k - 1]));
            assert(all[all.len() - 1] == fs[k - 1]);
            assert forall|i: int, j: int| 0 <= i < j < all.len() implies all[i].x_idx
                != all[j].x_idx by {
                if j == all.len() - 1 {
                    let m = choose|m: int|
                        0 <= m < k - 1 && fs[m] == front[i] && fs[m].node_idx == n;
                    assert(front[i] == all[i]);
                    assert(fs[m].node_idx <= fs[k - 1].node_idx);
                } else {
                    assert(front[i].x_idx != front[j].x_idx);
                }
            }
        }
        assert forall|j: int| 0 <= j < k && (#[trigger] fs[j]).node_idx == n implies all.contains(
            fs[j],
        ) by {
            if j < k - 1 {
                assert(front.contains(fs[j]));
                let i = choose|i: int| 0 <= i < front.len() && front[i] == fs[j];
                assert(all[i] == fs[j]);
            } else {
                assert(all[all.len() - 1] == fs[j]);
            }
        }
        assert forall|i: int| 0 <= i < all.len() implies exists|j: int|
            0 <= j < k && fs[j] == #[trigger] all[i] && fs[j].node_idx == n by {
            lemma_picks_from(fs, n, k, i);
            let j = choose|j: int| 0 <= j < k && #[trigger] fs[j] == all[i] && all[i].node_idx == n;
            assert(fs[j] == all[i] && fs[j].node_idx == n);
        }
    }
}

/// The counted sides of a fused list.
proof fn lemma_margs_fused(
    t0: Tdd,
    t1: Tdd,
    v: int,
    parent: int,
    side: ChildSide,
    fs: Seq<FusedPair>,
    n: int,
    x: u32,
)
    requires
        boundary_fused(t0, t1, v, parent, side, fs, fs.len() as int),
        0 <= n < t0.levels@[parent].nodes@.len(),
    ensures
        ({
            let before = margs_of(t0.levels@[parent].pairs_at(n), side, x);
            let after = margs_of(t1.levels@[parent].pairs_at(n), side, x);
            let ps = picks(fs, n, fs.len() as int);
            &&& !has_x(ps, x) ==> after == before
            &&& forall|i: int|
                0 <= i < ps.len() && (#[trigger] ps[i]).x_idx == x ==> after == seq![ps[i].new_ref]
        }),
{
    let level = t0.levels@[parent];
    let list = level.pairs_at(n);
    let ps = picks(fs, n, fs.len() as int);
    lemma_step_fit(t0, t1, v, parent, side, fs);
    lemma_picks(level, side, fs, n, fs.len() as int);
    assert(t1.levels@[parent].pairs_at(n) == if ps.len() > 0 {
        fused_list(list, side, ps)
    } else {
        list
    });
    if ps.len() > 0 {
        let new = ps.map_values(|f: FusedPair| pair_of(side, f));
        lemma_margs_append(kept(list, side, ps), new, side, x);
        lemma_margs_kept(list, side, ps, x);
        lemma_margs_new(ps, side, x);
        let after = margs_of(t1.levels@[parent].pairs_at(n), side, x);
        if !has_x(ps, x) {
            assert(after =~= margs_of(list, side, x));
        }
        assert forall|i: int| 0 <= i < ps.len() && (#[trigger] ps[i]).x_idx == x implies after
            == seq![ps[i].new_ref] by {
            assert(after =~= seq![ps[i].new_ref]);
        }
    }
}

/// After a boundary is fused, a child whose pairs were fused has one pair
/// left in that list, and it names the sum.
pub proof fn law_fused_child_has_one_pair(
    t0: Tdd,
    t1: Tdd,
    v: int,
    parent: int,
    side: ChildSide,
    fs: Seq<FusedPair>,
    i: int,
)
    requires
        boundary_fused(t0, t1, v, parent, side, fs, fs.len() as int),
        0 <= i < fs.len(),
    ensures
        margs_of(
            t1.levels@[parent].pairs_at(fs[i].node_idx as int),
            side,
            fs[i].x_idx,
        ) == seq![fs[i].new_ref],
{
    let n = fs[i].node_idx as int;
    let level = t0.levels@[parent];
    lemma_step_fit(t0, t1, v, parent, side, fs);
    lemma_picks(level, side, fs, n, fs.len() as int);
    lemma_margs_fused(t0, t1, v, parent, side, fs, n, fs[i].x_idx);
    let ps = picks(fs, n, fs.len() as int);
    let j = choose|j: int| 0 <= j < ps.len() && ps[j] == fs[i];
    assert(ps[j].x_idx == fs[i].x_idx);
}

/// With counts every group can be read.
proof fn lemma_usable_all(t: Tdd, v: int, gs: Seq<FusionGroup>)
    requires
        mode_of(t, v) is Counts,
    ensures
        usable_groups(t, v, gs) == gs,
    decreases gs.len(),
{
    if gs.len() > 0 {
        lemma_usable_all(t, v, gs.drop_last());
        assert(gs.drop_last().push(gs.last()) =~= gs);
    } else {
        assert(gs =~= Seq::empty());
    }
}

/// A child with two pairs in a list has a group among those of the list.
proof fn lemma_node_group(level: TddLevel, side: ChildSide, n: int, x: u32, k: int)
    requires
        0 <= n < level.nodes@.len(),
        margs_of(level.pairs_at(n), side, x).len() >= 2,
        0 <= k <= xs_of(level.pairs_at(n), side).len(),
        exists|j: int| 0 <= j < k && xs_of(level.pairs_at(n), side)[j] == x,
    ensures
        ({
            let list = level.pairs_at(n);
            let gs = groups_upto(list, side, n, xs_of(list, side), k);
            exists|i: int| 0 <= i < gs.len() && (#[trigger] gs[i]).n == n && gs[i].x == x
        }),
    decreases k,
{
    let list = level.pairs_at(n);
    let xs = xs_of(list, side);
    let gs = groups_upto(list, side, n, xs, k);
    let rest = groups_upto(list, side, n, xs, k - 1);
    if xs[k - 1] == x {
        assert(gs == rest.push(FusionGroup { n, x, margs: margs_of(list, side, x) }));
        assert(gs[gs.len() - 1].x == x);
    } else {
        lemma_node_group(level, side, n, x, k - 1);
        let i = choose|i: int| 0 <= i < rest.len() && (#[trigger] rest[i]).n == n && rest[i].x == x;
        assert(gs[i] == rest[i]);
    }
}

/// A child with two pairs in a list has a group among those of the level.
pub proof fn lemma_level_group(level: TddLevel, side: ChildSide, n: int, x: u32, k: int)
    requires
        0 <= n < k <= level.nodes@.len(),
        margs_of(level.pairs_at(n), side, x).len() >= 2,
    ensures
        exists|i: int|
            0 <= i < level_groups(level, side, k).len() && (#[trigger] level_groups(
                level,
                side,
                k,
            )[i]).n == n && level_groups(level, side, k)[i].x == x,
    decreases k,
{
    let all = level_groups(level, side, k);
    let front = level_groups(level, side, k - 1);
    let here = node_groups(level, side, k - 1);
    if n == k - 1 {
        let list = level.pairs_at(n);
        lemma_xs(list, side);
        let xs = xs_of(list, side);
        assert(xs.contains(x));
        lemma_node_group(level, side, n, x, xs.len() as int);
        let i = choose|i: int| 0 <= i < here.len() && (#[trigger] here[i]).n == n && here[i].x == x;
        assert(all[front.len() + i] == here[i]);
    } else {
        lemma_level_group(level, side, n, x, k - 1);
        let i = choose|i: int|
            0 <= i < front.len() && (#[trigger] front[i]).n == n && front[i].x == x;
        assert(all[i] == front[i]);
    }
}

/// After a boundary to a store of counts is fused, no child has two pairs in
/// one list: nothing is left to fuse there.
pub proof fn law_fusion_leaves_no_group(
    t0: Tdd,
    t1: Tdd,
    v: int,
    parent: int,
    side: ChildSide,
    fs: Seq<FusedPair>,
    n: int,
    x: u32,
)
    requires
        boundary_fused(t0, t1, v, parent, side, fs, fs.len() as int),
        mode_of(t0, v) is Counts,
        !t0.vtree.leaf_at(v),
        0 <= n < t0.levels@[parent].nodes@.len(),
    ensures
        margs_of(t1.levels@[parent].pairs_at(n), side, x).len() <= 1,
{
    let level = t0.levels@[parent];
    let gs = level_groups(level, side, level.nodes@.len() as int);
    lemma_usable_all(t0, v, gs);
    lemma_fit_all(t0, v, gs);
    assert(step_groups(t0, v, parent, side) == gs);
    lemma_step_fit(t0, t1, v, parent, side, fs);
    lemma_picks(level, side, fs, n, fs.len() as int);
    lemma_margs_fused(t0, t1, v, parent, side, fs, n, x);
    let ps = picks(fs, n, fs.len() as int);
    if margs_of(level.pairs_at(n), side, x).len() >= 2 {
        lemma_level_group(level, side, n, x, level.nodes@.len() as int);
        let i = choose|i: int| 0 <= i < gs.len() && (#[trigger] gs[i]).n == n && gs[i].x == x;
        assert(fs[i].node_idx == gs[i].n && fs[i].x_idx == gs[i].x);
        assert(ps.contains(fs[i]));
        let j = choose|j: int| 0 <= j < ps.len() && ps[j] == fs[i];
        assert(ps[j].x_idx == x);
    }
    if has_x(ps, x) {
        let j = choose|j: int| 0 <= j < ps.len() && (#[trigger] ps[j]).x_idx == x;
        assert(margs_of(t1.levels@[parent].pairs_at(n), side, x) == seq![ps[j].new_ref]);
    }
}

} // verus!
