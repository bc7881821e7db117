//! A diagram at rest has no twins.

use super::contract::commit::merged_total;
use super::contract::content_twin::side_under;
use super::contract::contract_leaf::{has_negative, joinable, leaf_below, leaves_at_rest};
use super::contract::fingerprint::{
    class_starts, class_upto, contexts, flat_classes, is_first, lemma_first_exists, lemma_flat,
    lemma_sig_append, lemma_sig_count, lemma_sig_list, lemma_starts, lemma_tagged_count,
    list_contexts, participants, same_contexts, side_child, sig, Context,
};
use super::contract::plan::{
    decide, greedy, group_at, group_end, groups_wf, keys, lemma_plans, overlaps, pair_key, plans,
    plans_ok, MergePolicy, PlanSpec,
};
use super::contract::strategies::{at_rest, level_at_rest, level_plans};
use super::contract::twin_value::{sibs, twins};
use super::contract::twins::{contractible, policy_of};
use super::prune::{law_pruned_is_reached, pair_names, pruned, reached};
use crate::canonical::{
    lemma_injection, lemma_pair_named, lemma_parent, named, twin_free, unambiguous,
};
use crate::conjoin::plain;
use crate::level::{side_ref, ChildSide, InputPair, TddLevel, ONE_LEAF_RAW, ZERO_RAW};
use crate::tdd::{eff_width, Tdd};
use vstd::prelude::*;

verus! {

/// No context names a parent node past those that were looked at.
proof fn lemma_sig_past(parent: TddLevel, side: ChildSide, k: int, a: int, n: u32, x: u32)
    requires
        0 <= k <= parent.nodes@.len() <= u32::MAX,
        n >= k,
    ensures
        sig(contexts(parent, side, false, k), a).to_multiset().count((n, x)) == 0,
    decreases k,
{
    broadcast use vstd::seq_lib::group_to_multiset_ensures;

    if k > 0 {
        lemma_sig_past(parent, side, k - 1, a, n, x);
        let rest = contexts(parent, side, false, k - 1);
        let more = list_contexts(parent.pairs_at(k - 1), side, false, k - 1);
        lemma_sig_append(rest, more, a);
        lemma_sig_list(parent.pairs_at(k - 1), side, k - 1, a);
        lemma_tagged_count(sibs(parent.pairs_at(k - 1), side, a), (k - 1) as u32, n, x);
        vstd::seq_lib::lemma_multiset_commutative(sig(rest, a), sig(more, a));
    }
}

/// Twins have the same contexts.
proof fn lemma_twins_share(parent: TddLevel, side: ChildSide, a: int, b: int)
    requires
        parent.nodes@.len() <= u32::MAX,
        twins(parent, side, a, b),
    ensures
        same_contexts(contexts(parent, side, false, parent.nodes@.len() as int), a, b),
{
    let w = parent.nodes@.len() as int;
    let cs = contexts(parent, side, false, w);
    let ma = sig(cs, a).to_multiset();
    let mb = sig(cs, b).to_multiset();
    assert forall|c: (u32, u32)| #[trigger] ma.count(c) == mb.count(c) by {
        if c.0 < w {
            lemma_sig_count(parent, side, w, a, c.0 as int, c.1);
            lemma_sig_count(parent, side, w, b, c.0 as int, c.1);
            assert(sibs(parent.pairs_at(c.0 as int), side, a).to_multiset() == sibs(
                parent.pairs_at(c.0 as int),
                side,
                b,
            ).to_multiset());
        } else {
            lemma_sig_past(parent, side, w, a, c.0, c.1);
            lemma_sig_past(parent, side, w, b, c.0, c.1);
        }
    }
    assert(ma =~= mb);
}

/// A node with the contexts of `r` is in the class of `r`.
proof fn lemma_in_class(cs: Seq<Context>, part: Seq<bool>, r: int, x: int, k: int)
    requires
        0 <= r <= x < k <= u32::MAX,
        is_first(cs, part, r),
        part[x],
        same_contexts(cs, r, x),
    ensures
        class_upto(cs, part, r, k).contains(x as u32),
    decreases k,
{
    let rest = class_upto(cs, part, r, k - 1);
    let c = class_upto(cs, part, r, k);
    if x == k - 1 {
        assert(c[c.len() - 1] == x as u32);
    } else {
        lemma_in_class(cs, part, r, x, k - 1);
        let j = choose|j: int| 0 <= j < rest.len() && rest[j] == x as u32;
        assert(c[j] == x as u32);
    }
}

/// A class of two or more nodes begins somewhere.
proof fn lemma_has_start(cs: Seq<Context>, part: Seq<bool>, w: int, r: int, k: int)
    requires
        0 <= r < k,
        class_upto(cs, part, r, w).len() >= 2,
    ensures
        class_starts(cs, part, w, k).len() > 0,
    decreases k,
{
    if r < k - 1 {
        lemma_has_start(cs, part, w, r, k - 1);
    }
}

/// The choice among members with disjoint lists takes two.
proof fn lemma_greedy_two(level: TddLevel, group: Seq<u32>, parent_marg: bool, k: int)
    requires
        2 <= k <= group.len(),
        !overlaps(
            keys(level.pairs_at(group[1] as int)),
            keys(level.pairs_at(group[0] as int)).to_set(),
        ),
    ensures
        greedy(level, group, parent_marg, k).filtered.len() >= 2,
    decreases k,
{
    if k > 2 {
        lemma_greedy_two(level, group, parent_marg, k - 1);
    } else {
        assert(greedy(level, group, parent_marg, 1).filtered.len() == 1);
        assert(greedy(level, group, parent_marg, 1).seen == keys(
            level.pairs_at(group[0] as int),
        ).to_set());
    }
}

/// Every decided group merges something.
proof fn lemma_merged_some(ps: Seq<PlanSpec>, k: int)
    requires
        0 <= k <= ps.len(),
        forall|q: int| 0 <= q < ps.len() ==> (#[trigger] ps[q]).members.len() >= 2,
    ensures
        merged_total(ps, k) >= k,
    decreases k,
{
    if k > 0 {
        lemma_merged_some(ps, k - 1);
        assert(ps[k - 1].members.len() >= 2);
    }
}

/// A first decision stays.
proof fn lemma_plans_grow(
    level: TddLevel,
    flat: Seq<u32>,
    starts: Seq<u32>,
    pol: MergePolicy,
    k: int,
)
    requires
        k >= 1,
        decide(level, group_at(flat, starts, 0), pol) is Some,
    ensures
        plans(level, flat, starts, pol, k).len() > 0,
    decreases k,
{
    if k > 1 {
        lemma_plans_grow(level, flat, starts, pol, k - 1);
    } else {
        assert(plans(level, flat, starts, pol, 0).len() == 0);
    }
}

/// Nodes whose lists share no pair do not overlap.
proof fn lemma_disjoint(d: Tdd, t: int, i: int, j: int)
    requires
        unambiguous(d),
        0 <= t < d.vtree.n(),
        !d.vtree.leaf_at(t),
        0 <= i < d.levels@[t].nodes@.len(),
        0 <= j < d.levels@[t].nodes@.len(),
        i != j,
    ensures
        !overlaps(keys(d.levels@[t].pairs_at(j)), keys(d.levels@[t].pairs_at(i)).to_set()),
{
    let a = d.levels@[t].pairs_at(i);
    let b = d.levels@[t].pairs_at(j);
    if overlaps(keys(b), keys(a).to_set()) {
        let m = choose|m: int|
            0 <= m < keys(b).len() && keys(a).to_set().contains(#[trigger] keys(b)[m]);
        assert(keys(a).contains(keys(b)[m]));
        let k = choose|k: int| 0 <= k < keys(a).len() && keys(a)[k] == keys(b)[m];
        assert(pair_key(a[k]) == pair_key(b[m]));
        assert(a[k] == b[m]);
        assert(d.levels@[t].pairs_at(i)[k] == d.levels@[t].pairs_at(j)[m]);
    }
}

/// A level at rest has no twins below.
pub proof fn lemma_rest_no_twins(d: Tdd, t: int, side: ChildSide, i: int, j: int)
    requires
        plain(d),
        unambiguous(d),
        0 <= t < d.vtree.n(),
        !d.vtree.leaf_at(t),
        !d.vtree.leaf_at(side_child(*d.vtree, t, side)),
        d.levels@[side_child(*d.vtree, t, side)].n_tombstones == 0 || forall|x: int|
            0 <= x < d.levels@[side_child(*d.vtree, t, side)].nodes@.len() ==> (
            #[trigger] d.levels@[side_child(*d.vtree, t, side)].pairs_at(x)).len() > 0,
        at_rest(d, t, side, false),
        0 <= i < j < d.levels@[side_child(*d.vtree, t, side)].nodes@.len(),
    ensures
        !twins(d.levels@[t], side, i, j),
{
    let vt = d.vt();
    assert(vt.node_wf(t));
    let c = side_child(vt, t, side);
    assert(vt.node_wf(c));
    let parent = d.levels@[t];
    let child = d.levels@[c];
    assert(parent.wf() && child.wf());
    assert(!parent.marginal() && !child.marginal());
    assert(contractible(d, c, t, side));
    if twins(parent, side, i, j) {
        let w = eff_width(d.levels@, vt, c);
        let cs = contexts(parent, side, false, parent.nodes@.len() as int);
        let part = participants(child, cs, false, w);
        let flat = flat_classes(cs, part, w, w);
        let starts = class_starts(cs, part, w, w);
        let pol = policy_of(d, c, t, false);
        lemma_twins_share(parent, side, i, j);
        assert(part[i] && part[j]) by {
            if child.n_tombstones > 0 {
                assert(child.pairs_at(i).len() > 0 && child.pairs_at(j).len() > 0);
            }
        }
        let r = lemma_first_exists(cs, part, i);
        assert(same_contexts(cs, r, j));
        lemma_in_class(cs, part, r, i, w);
        lemma_in_class(cs, part, r, j, w);
        let cl = class_upto(cs, part, r, w);
        assert(cl.len() >= 2) by {
            let x = choose|x: int| 0 <= x < cl.len() && cl[x] == i as u32;
            let y = choose|y: int| 0 <= y < cl.len() && cl[y] == j as u32;
            assert(x != y);
        }
        lemma_has_start(cs, part, w, r, w);
        lemma_flat(cs, part, w, w);
        assert(flat.len() <= w) by {
            let f = |a: int| flat[a] as int;
            assert forall|a: int| 0 <= a < flat.len() implies 0 <= #[trigger] f(a) < w by {
                assert(0 <= flat[a] < w);
            }
            assert forall|a: int, b: int|
                0 <= a < flat.len() && 0 <= b < flat.len() && #[trigger] f(a)
                    == #[trigger] f(b) implies a == b by {
                if a < b {
                    assert(flat[a] != flat[b]);
                } else if b < a {
                    assert(flat[b] != flat[a]);
                }
            }
            lemma_injection(f, flat.len(), w as nat);
        }
        lemma_starts(cs, part, w, w);
        assert(groups_wf(flat, starts, w));
        let group = group_at(flat, starts, 0);
        assert(starts[0] + 2 <= group_end(flat, starts, 0) <= flat.len());
        assert(group.len() >= 2);
        assert(group[0] == flat[starts[0] as int] && group[1] == flat[starts[0] + 1]);
        lemma_disjoint(d, c, group[0] as int, group[1] as int);
        lemma_greedy_two(child, group, pol.parent_marg, group.len() as int);
        assert(decide(child, group, pol) is Some);
        let ps = plans(child, flat, starts, pol, starts.len() as int);
        lemma_plans_grow(child, flat, starts, pol, starts.len() as int);
        lemma_plans(child, flat, starts, pol, starts.len() as int);
        assert forall|q: int| 0 <= q < ps.len() implies (#[trigger] ps[q]).members.len() >= 2 by {
            assert(plans_ok(child, flat, starts, ps, starts.len() as int));
        }
        lemma_merged_some(ps, ps.len() as int);
        assert(level_plans(d, t, side, false) == ps);
    }
}

/// A reference that stands in a list has a partner there.
pub proof fn lemma_has_sib(list: Seq<InputPair>, side: ChildSide, k: int)
    requires
        0 <= k < list.len(),
    ensures
        sibs(list, side, side_ref(list[k], side) as int).len() > 0,
    decreases list.len(),
{
    if k < list.len() - 1 {
        let rest = list.drop_last();
        lemma_has_sib(rest, side, k);
        assert(rest[k] == list[k]);
    }
}

/// A diagram of a Boolean function without repeated pairs in which every level
/// is at rest has no twins.
pub proof fn law_rest_is_twin_free(d: Tdd)
    requires
        plain(d),
        unambiguous(d),
        forall|t: int|
            0 <= t < d.vtree.n() && !d.vtree.leaf_at(t) ==> #[trigger] level_at_rest(d, t, false),
        forall|t: int| 0 <= t < d.vtree.n() ==> #[trigger] leaves_at_rest(d, t),
        forall|t: int| 0 <= t < d.vtree.n() ==> (#[trigger] d.levels@[t]).n_tombstones == 0,
    ensures
        twin_free(d),
{
    let vt = d.vt();
    assert forall|t: int, i: int, j: int|
        0 <= t < vt.n() && vt.parent_at(t) is Some && #[trigger] named(d, t, i)
            && #[trigger] named(d, t, j) && i != j implies !twins(
        d.levels@[vt.up(t)],
        side_under(vt, vt.up(t), t),
        i,
        j,
    ) by {
        lemma_parent(vt, t);
        let p = vt.up(t);
        let side = side_under(vt, p, t);
        let level = d.levels@[p];
        assert(side_child(vt, p, side) == t);
        assert(!d.levels@[p].marginal() && !d.levels@[t].marginal());
        let (n, k) = choose|n: int, k: int|
            0 <= n < level.nodes@.len() && 0 <= k < level.pairs_at(n).len() && side_ref(
                #[trigger] d.levels@[p].pairs_at(n)[k],
                side,
            ) == i;
        let (m, l) = choose|m: int, l: int|
            0 <= m < level.nodes@.len() && 0 <= l < level.pairs_at(m).len() && side_ref(
                #[trigger] d.levels@[p].pairs_at(m)[l],
                side,
            ) == j;
        lemma_pair_named(d, t, n, k);
        lemma_pair_named(d, t, m, l);
        assert(twins(level, side, i, j) ==> twins(level, side, j, i)) by {
            if twins(level, side, i, j) {
                assert forall|x: int| 0 <= x < level.nodes@.len() implies sibs(
                    #[trigger] level.pairs_at(x),
                    side,
                    j,
                ).to_multiset() == sibs(level.pairs_at(x), side, i).to_multiset() by {}
            }
        }
        if vt.leaf_at(t) {
            assert(leaf_below(d, p, side));
            assert(leaves_at_rest(d, p));
            assert(!joinable(level, side));
            lemma_has_sib(level.pairs_at(n), side, k);
            lemma_has_sib(level.pairs_at(m), side, l);
            assert(i != ONE_LEAF_RAW && j != ONE_LEAF_RAW) by {
                if i == ONE_LEAF_RAW || j == ONE_LEAF_RAW {
                    assert(named(d, t, ONE_LEAF_RAW as int));
                }
            }
            assert(has_negative(level, side));
        } else {
            assert(level_at_rest(d, p, false));
            if i < j {
                lemma_rest_no_twins(d, p, side, i, j);
            } else {
                lemma_rest_no_twins(d, p, side, j, i);
            }
        }
    }
}

/// After packing, every node of a diagram of a Boolean function is the output
/// or stands in a list of the level above.
pub proof fn law_pruned_is_named(a: Tdd, b: Tdd, t: int, i: int)
    requires
        a.wf(),
        a.output.local.0 != ZERO_RAW,
        pruned(a, b),
        plain(b),
        0 <= t < b.vtree.n(),
        !b.vtree.leaf_at(t),
        0 <= i < b.levels@[t].nodes@.len(),
    ensures
        named(b, t, i),
{
    let vt = b.vt();
    assert(vt.node_wf(t));
    assert(!b.levels@[t].marginal());
    law_pruned_is_reached(a, b, t, i);
    assert(reached(b.levels@, vt, b.output, t, i));
    if vt.parent_at(t) is Some {
        lemma_parent(vt, t);
        let p = vt.up(t);
        assert(b.output.vtree.0 != t);
        let (j, k) = choose|j: int, k: int|
            0 <= j < b.levels@[p].nodes@.len() && 0 <= k < b.levels@[p].pairs_at(j).len()
                && pair_names(b.levels@, vt, p, #[trigger] b.levels@[p].pairs_at(j)[k], t, i)
                && reached(b.levels@, vt, b.output, p, j);
        assert(side_ref(b.levels@[p].pairs_at(j)[k], side_under(vt, p, t)) == i);
    }
}

} // verus!
