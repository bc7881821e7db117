//! Joining the two literals of a leaf.
//!
//! Where both literals of a variable stand with the same partners in every
//! list of the level above the leaf, each such two pairs are one pair with the
//! constant.

use super::fingerprint::{lemma_tagged_count, side_child};
use super::plan::{keys_equal, lemma_sorted_eq, sort_keys};
use super::strategies::marked;
use super::twin_value::{lemma_psum_wsum, node_val, partner_val, sibs, twins, wsum};
use crate::growth::{lemma_agree, lemma_agree_below, lemma_relist_wf, rewrites_at, store_extends};
use crate::level::{
    get_other_ref, get_side_ref, other_ref, set_side_ref, side_ref, with_side_ref, ChildSide,
    InputPair, TddLevel, NEG_LEAF_RAW, ONE_LEAF_RAW, POS_LEAF_RAW,
};
use crate::limits::{carried, denied, ApplyError, ApplyLimits};
use crate::minimize::refine::{
    fair, lemma_refines_refl, lemma_refines_trans, lemma_same_below, refines, same_frame,
};
use crate::minimize::tame::{calm, lemma_join_tame, lemma_marked_push, lemma_tame_same, tame};
use crate::minimize::worth::lemma_keeps_trans;
use crate::minimize::worth_lists::{lemma_joined_keeps, lemma_same_keeps};
use crate::sums::{lemma_total_perm, lemma_total_push, total};
use crate::tdd::{
    col, lemma_col_internal, lemma_col_len, list_ok, output_val, pair_ok, psum, refs_ok, sides,
    Sides, Tdd,
};
use crate::vtree::VtreeIdx;
use vstd::prelude::*;

verus! {

/// A list with the positive literal made the constant and the negative one
/// left out.
pub open spec fn joined(list: Seq<InputPair>, side: ChildSide) -> Seq<InputPair>
    decreases list.len(),
{
    if list.len() == 0 {
        Seq::empty()
    } else {
        let rest = joined(list.drop_last(), side);
        let p = list.last();
        if side_ref(p, side) == NEG_LEAF_RAW {
            rest
        } else if side_ref(p, side) == POS_LEAF_RAW {
            rest.push(with_side_ref(p, side, ONE_LEAF_RAW))
        } else {
            rest.push(p)
        }
    }
}

/// Level `p` is explicit and has an explicit leaf on `side`.
pub open spec fn leaf_below(tdd: Tdd, p: int, side: ChildSide) -> bool {
    &&& 0 <= p < tdd.vtree.n()
    &&& !tdd.vtree.leaf_at(p)
    &&& !tdd.levels@[p].marginal()
    &&& tdd.vtree.leaf_at(side_child(*tdd.vtree, p, side))
    &&& !tdd.levels@[side_child(*tdd.vtree, p, side)].marginal()
}

/// Some list of the level names the negative literal.
pub open spec fn has_negative(level: TddLevel, side: ChildSide) -> bool {
    exists|i: int|
        0 <= i < level.nodes@.len() && sibs(
            #[trigger] level.pairs_at(i),
            side,
            NEG_LEAF_RAW as int,
        ).len() > 0
}

/// The two literals of the leaf can be joined.
pub open spec fn joinable(level: TddLevel, side: ChildSide) -> bool {
    twins(level, side, POS_LEAF_RAW as int, NEG_LEAF_RAW as int) && has_negative(level, side)
}

/// What joining does to a list's worth, apart from the partners.
proof fn lemma_joined_wsum(
    list: Seq<InputPair>,
    side: ChildSide,
    w: spec_fn(u32) -> nat,
    f: spec_fn(u32) -> nat,
)
    requires
        f(ONE_LEAF_RAW) == f(POS_LEAF_RAW) + f(NEG_LEAF_RAW),
    ensures
        wsum(joined(list, side), side, w, f) + f(NEG_LEAF_RAW) * total(
            sibs(list, side, NEG_LEAF_RAW as int),
            w,
        ) == wsum(list, side, w, f) + f(NEG_LEAF_RAW) * total(
            sibs(list, side, POS_LEAF_RAW as int),
            w,
        ),
    decreases list.len(),
{
    if list.len() > 0 {
        let p = list.last();
        let rest = list.drop_last();
        let y = other_ref(p, side);
        let jn = joined(rest, side);
        lemma_joined_wsum(rest, side, w, f);
        let c = f(NEG_LEAF_RAW);
        let tn = total(sibs(rest, side, NEG_LEAF_RAW as int), w);
        let tp = total(sibs(rest, side, POS_LEAF_RAW as int), w);
        let x = side_ref(p, side);
        if x == NEG_LEAF_RAW {
            lemma_total_push(sibs(rest, side, NEG_LEAF_RAW as int), y, w);
            assert(c * (tn + w(y)) == c * tn + w(y) * c) by (nonlinear_arith);
        } else if x == POS_LEAF_RAW {
            let q = with_side_ref(p, side, ONE_LEAF_RAW);
            assert(jn.push(q).drop_last() =~= jn);
            assert(other_ref(q, side) == y && side_ref(q, side) == ONE_LEAF_RAW);
            lemma_total_push(sibs(rest, side, POS_LEAF_RAW as int), y, w);
            let a = f(POS_LEAF_RAW);
            assert(c * (tp + w(y)) == c * tp + w(y) * c) by (nonlinear_arith);
            assert(w(y) * (a + c) == w(y) * a + w(y) * c) by (nonlinear_arith);
        } else {
            assert(jn.push(p).drop_last() =~= jn);
        }
    }
}

/// Joining keeps the value of a list whose literals have the same partners.
proof fn lemma_joined_value(list: Seq<InputPair>, side: ChildSide, s: Sides)
    requires
        match side {
            ChildSide::Left => !s.lm && s.lc[0] == s.lc[1] + s.lc[2],
            ChildSide::Right => !s.rm && s.rc[0] == s.rc[1] + s.rc[2],
        },
        sibs(list, side, POS_LEAF_RAW as int).to_multiset() == sibs(
            list,
            side,
            NEG_LEAF_RAW as int,
        ).to_multiset(),
    ensures
        psum(joined(list, side), s) == psum(list, s),
{
    let w = partner_val(s, side);
    let f = node_val(s, side);
    lemma_psum_wsum(list, s, side);
    lemma_psum_wsum(joined(list, side), s, side);
    lemma_joined_wsum(list, side, w, f);
    lemma_total_perm(
        sibs(list, side, POS_LEAF_RAW as int),
        sibs(list, side, NEG_LEAF_RAW as int),
        w,
    );
}

/// How long a joined list is.
proof fn lemma_joined_len(list: Seq<InputPair>, side: ChildSide)
    ensures
        joined(list, side).len() + sibs(list, side, NEG_LEAF_RAW as int).len() == list.len(),
        sibs(list, side, POS_LEAF_RAW as int).len() <= joined(list, side).len(),
        sibs(joined(list, side), side, NEG_LEAF_RAW as int).len() == 0,
        sibs(list, side, NEG_LEAF_RAW as int).len() == 0 && sibs(
            list,
            side,
            POS_LEAF_RAW as int,
        ).len() == 0 ==> joined(list, side) == list,
    decreases list.len(),
{
    if list.len() > 0 {
        lemma_joined_len(list.drop_last(), side);
        let p = list.last();
        let jn = joined(list.drop_last(), side);
        assert(jn.push(p).drop_last() =~= jn);
        let q = with_side_ref(p, side, ONE_LEAF_RAW);
        assert(jn.push(q).drop_last() =~= jn);
        assert(side_ref(q, side) == ONE_LEAF_RAW);
        assert(list =~= list.drop_last().push(p));
    }
}

/// The pairs of a joined list are fine.
proof fn lemma_joined_ok(tdd: Tdd, p: int, side: ChildSide, list: Seq<InputPair>)
    requires
        tdd.wf(),
        leaf_below(tdd, p, side),
        list_ok(tdd.levels@, *tdd.vtree, p, list),
    ensures
        list_ok(tdd.levels@, *tdd.vtree, p, joined(list, side)),
    decreases list.len(),
{
    if list.len() > 0 {
        assert forall|k: int| 0 <= k < list.drop_last().len() implies pair_ok(
            tdd.levels@,
            *tdd.vtree,
            p,
            #[trigger] list.drop_last()[k],
        ) by {
            assert(list.drop_last()[k] == list[k]);
        }
        lemma_joined_ok(tdd, p, side, list.drop_last());
        assert(pair_ok(tdd.levels@, *tdd.vtree, p, list[list.len() - 1]));
        let jn = joined(list.drop_last(), side);
        assert forall|k: int| 0 <= k < joined(list, side).len() implies pair_ok(
            tdd.levels@,
            *tdd.vtree,
            p,
            #[trigger] joined(list, side)[k],
        ) by {
            if k < jn.len() {
                assert(joined(list, side)[k] == jn[k]);
            }
        }
    }
}

/// The partners of label `x` in a list, as keys.
fn label_keys(list: &[InputPair], side: ChildSide, x: u32) -> (r: Vec<(u32, u32)>)
    ensures
        r@ == sibs(list@, side, x as int).map_values(|y: u32| (0u32, y)),
{
    let mut out: Vec<(u32, u32)> = Vec::new();
    let n: usize = list.len();
    let mut k: usize = 0;
    while k < n
        invariant
            k <= n,
            n == list@.len(),
            out@ == sibs(list@.take(k as int), side, x as int).map_values(|y: u32| (0u32, y)),
        decreases n - k,
    {
        let p: InputPair = list[k];
        assert(list@.take(k + 1).drop_last() =~= list@.take(k as int));
        if get_side_ref(p, side) == x {
            out.push((0, get_other_ref(p, side)));
        }
        assert(out@ =~= sibs(list@.take(k + 1), side, x as int).map_values(|y: u32| (0u32, y)));
        k += 1;
    }
    assert(list@.take(n as int) =~= list@);
    out
}

/// Keys are a permutation of each other exactly where the partners are.
proof fn lemma_keys_multiset(a: Seq<u32>, b: Seq<u32>)
    ensures
        a.map_values(|y: u32| (0u32, y)).to_multiset() == b.map_values(
            |y: u32| (0u32, y),
        ).to_multiset() <==> a.to_multiset() == b.to_multiset(),
{
    let ka = a.map_values(|y: u32| (0u32, y));
    let kb = b.map_values(|y: u32| (0u32, y));
    if a.to_multiset() == b.to_multiset() {
        assert forall|k: (u32, u32)| #[trigger] ka.to_multiset().count(k) == kb.to_multiset().count(
            k,
        ) by {
            lemma_tagged_count(a, 0, k.0, k.1);
            lemma_tagged_count(b, 0, k.0, k.1);
        }
        assert(ka.to_multiset() =~= kb.to_multiset());
    }
    if ka.to_multiset() == kb.to_multiset() {
        assert forall|x: u32| #[trigger] a.to_multiset().count(x) == b.to_multiset().count(x) by {
            lemma_tagged_count(a, 0, 0, x);
            lemma_tagged_count(b, 0, 0, x);
        }
        assert(a.to_multiset() =~= b.to_multiset());
    }
}

/// Whether the two literals have the same partners in a list.
fn same_partners(list: &[InputPair], side: ChildSide) -> (r: bool)
    ensures
        r == (sibs(list@, side, POS_LEAF_RAW as int).to_multiset() == sibs(
            list@,
            side,
            NEG_LEAF_RAW as int,
        ).to_multiset()),
{
    let mut pos = label_keys(list, side, POS_LEAF_RAW);
    let mut neg = label_keys(list, side, NEG_LEAF_RAW);
    let ghost kp = pos@;
    let ghost kn = neg@;
    sort_keys(&mut pos);
    sort_keys(&mut neg);
    proof {
        lemma_sorted_eq(kp, kn, pos@, neg@);
        lemma_keys_multiset(
            sibs(list@, side, POS_LEAF_RAW as int),
            sibs(list@, side, NEG_LEAF_RAW as int),
        );
    }
    keys_equal(&pos, &neg)
}

/// Whether a list names a label.
fn names_label(list: &[InputPair], side: ChildSide, x: u32) -> (r: bool)
    ensures
        r == (sibs(list@, side, x as int).len() > 0),
{
    label_keys(list, side, x).len() > 0
}

/// A list with its literals joined.
fn join_list(list: &[InputPair], side: ChildSide) -> (r: Vec<InputPair>)
    ensures
        r@ == joined(list@, side),
{
    let mut out: Vec<InputPair> = Vec::new();
    let n: usize = list.len();
    let mut k: usize = 0;
    while k < n
        invariant
            k <= n,
            n == list@.len(),
            out@ == joined(list@.take(k as int), side),
        decreases n - k,
    {
        let p: InputPair = list[k];
        assert(list@.take(k + 1).drop_last() =~= list@.take(k as int));
        let x: u32 = get_side_ref(p, side);
        if x == POS_LEAF_RAW {
            out.push(set_side_ref(p, side, ONE_LEAF_RAW));
        } else if x != NEG_LEAF_RAW {
            out.push(p);
        }
        k += 1;
    }
    assert(list@.take(n as int) =~= list@);
    out
}

/// Whether the two literals of the leaf can be joined.
fn is_joinable(level: &TddLevel, side: ChildSide) -> (r: bool)
    requires
        level.arena_wf(),
    ensures
        r == joinable(*level, side),
{
    let n: usize = level.nodes.len();
    let mut found: bool = false;
    let mut i: usize = 0;
    while i < n
        invariant
            i <= n,
            n == level.nodes@.len(),
            level.arena_wf(),
            forall|j: int|
                0 <= j < i ==> sibs(
                    #[trigger] level.pairs_at(j),
                    side,
                    POS_LEAF_RAW as int,
                ).to_multiset() == sibs(level.pairs_at(j), side, NEG_LEAF_RAW as int).to_multiset(),
            found == exists|j: int|
                0 <= j < i && sibs(#[trigger] level.pairs_at(j), side, NEG_LEAF_RAW as int).len()
                    > 0,
        decreases n - i,
    {
        let list = level.pairs_of_idx(i);
        if !same_partners(list, side) {
            assert(level.pairs_at(i as int) == list@);
            return false;
        }
        if names_label(list, side, NEG_LEAF_RAW) {
            assert(sibs(level.pairs_at(i as int), side, NEG_LEAF_RAW as int).len() > 0);
            found = true;
        }
        i += 1;
    }
    found
}

/// The first `k` lists of the level have been joined.
pub open spec fn joined_upto(before: TddLevel, after: TddLevel, side: ChildSide, k: int) -> bool {
    &&& after.arena_wf()
    &&& after.nodes@.len() == before.nodes@.len()
    &&& after.same_store(before)
    &&& after.same_flags(before)
    &&& forall|i: int|
        0 <= i < before.nodes@.len() ==> #[trigger] after.pairs_at(i) == if i < k {
            joined(before.pairs_at(i), side)
        } else {
            before.pairs_at(i)
        }
    &&& forall|i: int|
        0 <= i < before.nodes@.len() && #[trigger] after.nodes@[i] is Tombstone
            ==> before.nodes@[i] is Tombstone
}

/// Joining some of the lists of a level refines.
proof fn lemma_joined_refines(a: Tdd, b: Tdd, p: int, side: ChildSide, k: int)
    requires
        a.wf(),
        a.weights_wf(),
        leaf_below(a, p, side),
        twins(a.levels@[p], side, POS_LEAF_RAW as int, NEG_LEAF_RAW as int),
        b == (Tdd { levels: b.levels, ..a }),
        b.levels@.len() == a.levels@.len(),
        joined_upto(a.levels@[p], b.levels@[p], side, k),
        forall|t: int|
            0 <= t < a.levels@.len() && t != p ==> #[trigger] b.levels@[t] == a.levels@[t],
    ensures
        refines(a, b, true),
{
    let vt = a.vt();
    let x = a.levels@;
    let y = b.levels@;
    assert(vt.node_wf(p));
    let l = vt.left_at(p);
    let r = vt.right_at(p);
    assert(vt.node_wf(l) && vt.node_wf(r));
    assert(refs_ok(x, vt, p));
    assert forall|i: int| 0 <= i < y[p].nodes@.len() implies list_ok(
        x,
        vt,
        p,
        #[trigger] y[p].pairs_at(i),
    ) by {
        assert(list_ok(x, vt, p, x[p].pairs_at(i)));
        lemma_joined_ok(a, p, side, x[p].pairs_at(i));
    }
    assert(x[p].wf());
    assert(y[p].wf());
    lemma_relist_wf(x, y, vt, p);
    assert forall|t: int| 0 <= t < x.len() && t != p implies store_extends(#[trigger] x[t], y[t]) by {
        assert(x[t].wf());
        assert(y[t] == x[t]);
    }
    assert(rewrites_at(x, y, vt, p));
    assert(b.weights_wf()) by {
        super::dup_resolve::lemma_weights_keep(a, b, p);
    }
    lemma_joined_keeps(a, b, p, side, k);
    assert(same_frame(a, b));
    if a.unweighted() {
        assert forall|seed: spec_fn(int, int) -> nat| fair(a, seed, true) implies #[trigger] output_val(
            b,
            seed,
        ) == output_val(a, seed) by {
            lemma_agree_below(x, y, vt, seed, p, l);
            lemma_agree_below(x, y, vt, seed, p, r);
            lemma_col_internal(x, vt, seed, p);
            lemma_col_internal(y, vt, seed, p);
            let c = side_child(vt, p, side);
            let s = sides(x, vt, seed, p);
            assert(seed(c, 0) == seed(c, 1) + seed(c, 2));
            assert(col(x, vt, seed, c)[0] == seed(c, 0));
            assert(col(x, vt, seed, c)[1] == seed(c, 1));
            assert(col(x, vt, seed, c)[2] == seed(c, 2));
            assert(y[l] == x[l] && y[r] == x[r]);
            lemma_same_below(a, b, p, seed, l);
            lemma_same_below(a, b, p, seed, r);
            assert(sides(y, vt, seed, p) == s);
            assert forall|i: int| 0 <= i < x[p].nodes@.len() implies psum(
                #[trigger] y[p].pairs_at(i),
                s,
            ) == psum(x[p].pairs_at(i), s) by {
                lemma_joined_value(x[p].pairs_at(i), side, s);
            }
            assert(col(y, vt, seed, p) =~= col(x, vt, seed, p));
            lemma_agree(x, y, vt, seed, p, a.output.vtree.0 as int);
            lemma_col_len(x, vt, seed, a.output.vtree.0 as int);
        }
    }
}

/// Join the literals of the leaf below level `p` on `side`, where they can be.
/// Whether they were comes back. Where the memory cannot be had, some of the
/// lists have been joined.
#[verifier::spinoff_prover]
pub fn join_leaf(tdd: &mut Tdd, limits: &mut ApplyLimits, p: VtreeIdx, side: ChildSide) -> (r:
    Result<bool, ApplyError>)
    requires
        old(tdd).wf(),
        old(tdd).weights_wf(),
        leaf_below(*old(tdd), p.0 as int, side),
    ensures
        carried(*old(limits), *final(limits)),
        refines(*old(tdd), *final(tdd), true),
        *final(tdd) == (Tdd { levels: final(tdd).levels, ..*old(tdd) }),
        forall|t: int|
            0 <= t < old(tdd).levels@.len() && t != p.0 ==> #[trigger] final(tdd).levels@[t]
                == old(tdd).levels@[t],
        match r {
            Ok(fired) => {
                &&& fired == joinable(old(tdd).levels@[p.0 as int], side)
                &&& !fired ==> *final(tdd) == *old(tdd)
                &&& fired ==> joined_upto(
                    old(tdd).levels@[p.0 as int],
                    final(tdd).levels@[p.0 as int],
                    side,
                    old(tdd).levels@[p.0 as int].nodes@.len() as int,
                )
            },
            Err(e) => e == ApplyError::OverBudget && denied(*final(limits)) && exists|k: int|
                0 <= k < old(tdd).levels@[p.0 as int].nodes@.len() && #[trigger] joined_upto(
                    old(tdd).levels@[p.0 as int],
                    final(tdd).levels@[p.0 as int],
                    side,
                    k,
                ),
        },
{
    let ghost t0 = *tdd;
    let pi: usize = p.idx();
    let ghost before = tdd.levels@[pi as int];
    proof {
        assert(t0.levels@[pi as int].wf());
        lemma_refines_refl(t0, true);
    }
    if !is_joinable(&tdd.levels[pi], side) {
        return Ok(false);
    }
    let n: usize = tdd.levels[pi].nodes.len();
    let mut i: usize = 0;
    while i < n
        invariant
            i <= n,
            t0 == *old(tdd),
            t0.wf(),
            t0.weights_wf(),
            leaf_below(t0, p.0 as int, side),
            pi == p.0,
            pi < t0.levels@.len(),
            before == t0.levels@[pi as int],
            before.wf(),
            n == before.nodes@.len(),
            joinable(before, side),
            *tdd == (Tdd { levels: tdd.levels, ..t0 }),
            tdd.levels@.len() == t0.levels@.len(),
            forall|t: int|
                0 <= t < t0.levels@.len() && t != pi ==> #[trigger] tdd.levels@[t] == t0.levels@[t],
            joined_upto(before, tdd.levels@[pi as int], side, i as int),
            carried(*old(limits), *limits),
        decreases n - i,
    {
        let ghost now = tdd.levels@[pi as int];
        let list = tdd.levels[pi].pairs_of_idx(i);
        let ghost was = list@;
        proof {
            assert(now.pairs_at(i as int) == before.pairs_at(i as int));
            assert(sibs(before.pairs_at(i as int), side, POS_LEAF_RAW as int).to_multiset() == sibs(
                before.pairs_at(i as int),
                side,
                NEG_LEAF_RAW as int,
            ).to_multiset());
            lemma_joined_len(was, side);
            vstd::seq_lib::to_multiset_len(sibs(was, side, POS_LEAF_RAW as int));
            vstd::seq_lib::to_multiset_len(sibs(was, side, NEG_LEAF_RAW as int));
        }
        if names_label(list, side, NEG_LEAF_RAW) {
            let fresh = join_list(list, side);
            proof {
                assert(now.node_wf(i as int));
                assert(was.len() >= 2);
                assert(now.in_arena(i as int));
                assert(now.pairs_at(i as int).len() == now.len_at(i as int));
            }
            let step = tdd.levels[pi].replace_list(limits, i, &fresh);
            proof {
                assert forall|t: int| 0 <= t < t0.levels@.len() && t != pi implies #[trigger] tdd.levels@[t]
                    == t0.levels@[t] by {}
                let after = tdd.levels@[pi as int];
                assert forall|j: int|
                    0 <= j < before.nodes@.len() && #[trigger] after.nodes@[j] is Tombstone implies before.nodes@[j] is Tombstone by {
                    if j != i {
                        assert(after.pairs_at(j) == now.pairs_at(j));
                        assert(after.nodes@[j] == now.nodes@[j]);
                    }
                }
                assert forall|j: int| 0 <= j < before.nodes@.len() && j != i implies #[trigger] after.pairs_at(
                j) == now.pairs_at(j) by {}
            }
            match step {
                Ok(()) => {},
                Err(e) => {
                    proof {
                        assert(joined_upto(before, tdd.levels@[pi as int], side, i as int));
                        lemma_joined_refines(t0, *tdd, pi as int, side, i as int);
                    }
                    return Err(e);
                },
            }
        }
        i += 1;
        assert(joined_upto(before, tdd.levels@[pi as int], side, i as int));
    }
    proof {
        lemma_joined_refines(t0, *tdd, pi as int, side, n as int);
    }
    Ok(true)
}

/// Joining on one side brings no label in on the other.
proof fn lemma_joined_other(list: Seq<InputPair>, side: ChildSide, other: ChildSide, x: int)
    requires
        side != other,
    ensures
        sibs(joined(list, side), other, x).len() <= sibs(list, other, x).len(),
    decreases list.len(),
{
    if list.len() > 0 {
        lemma_joined_other(list.drop_last(), side, other, x);
        let p = list.last();
        let jn = joined(list.drop_last(), side);
        let q = with_side_ref(p, side, ONE_LEAF_RAW);
        assert(jn.push(p).drop_last() =~= jn);
        assert(jn.push(q).drop_last() =~= jn);
        assert(side_ref(q, other) == side_ref(p, other));
    }
}

/// Joined lists name no negative literal.
proof fn lemma_joined_settles(before: TddLevel, after: TddLevel, side: ChildSide)
    requires
        joined_upto(before, after, side, before.nodes@.len() as int),
    ensures
        !has_negative(after, side),
        forall|other: ChildSide|
            other != side && !has_negative(before, other) ==> !#[trigger] has_negative(after, other),
{
    assert forall|i: int| 0 <= i < after.nodes@.len() implies sibs(
        #[trigger] after.pairs_at(i),
        side,
        NEG_LEAF_RAW as int,
    ).len() == 0 by {
        lemma_joined_len(before.pairs_at(i), side);
    }
    assert forall|other: ChildSide| other != side && !has_negative(before, other) implies !#[trigger] has_negative(
    after, other) by {
        assert forall|i: int| 0 <= i < after.nodes@.len() implies sibs(
            #[trigger] after.pairs_at(i),
            other,
            NEG_LEAF_RAW as int,
        ).len() == 0 by {
            lemma_joined_other(before.pairs_at(i), side, other, NEG_LEAF_RAW as int);
            assert(sibs(before.pairs_at(i), other, NEG_LEAF_RAW as int).len() == 0);
        }
    }
}

/// No literals of a leaf below level `p` can be joined.
pub open spec fn leaves_at_rest(tdd: Tdd, p: int) -> bool {
    &&& leaf_below(tdd, p, ChildSide::Left) ==> !joinable(tdd.levels@[p], ChildSide::Left)
    &&& leaf_below(tdd, p, ChildSide::Right) ==> !joinable(tdd.levels@[p], ChildSide::Right)
}

/// Only level `p` differs.
pub open spec fn only_level(a: Tdd, b: Tdd, p: int) -> bool {
    &&& b == (Tdd { levels: b.levels, ..a })
    &&& b.levels@.len() == a.levels@.len()
    &&& b.levels@[p].nodes@.len() == a.levels@[p].nodes@.len()
    &&& forall|t: int|
        0 <= t < a.levels@.len() && t != p ==> #[trigger] b.levels@[t] == a.levels@[t]
}

/// Joining literals keeps a diagram tame, and makes no nodes stand with the
/// same partners.
pub open spec fn join_kept(a: Tdd, b: Tdd) -> bool {
    tame(a) ==> tame(b) && forall|u: int, side: ChildSide|
        0 <= u < a.levels@.len() && calm(a.levels@[u], side) ==> #[trigger] calm(
            b.levels@[u],
            side,
        )
}

proof fn lemma_join_kept_trans(a: Tdd, b: Tdd, c: Tdd)
    requires
        join_kept(a, b),
        join_kept(b, c),
        b.levels@.len() == a.levels@.len(),
    ensures
        join_kept(a, c),
{
    if tame(a) {
        assert forall|u: int, side: ChildSide|
            0 <= u < a.levels@.len() && calm(a.levels@[u], side) implies #[trigger] calm(
            c.levels@[u],
            side,
        ) by {
            assert(calm(b.levels@[u], side));
        }
    }
}

/// Marks do not matter.
proof fn lemma_join_kept_marks(a: Tdd, b: Tdd)
    requires
        b.wf(),
        b == (Tdd {
            dirty_contract: b.dirty_contract,
            dirty_leaf_contract: b.dirty_leaf_contract,
            ..a
        }),
    ensures
        join_kept(a, b),
{
    if tame(a) {
        lemma_tame_same(a, b);
    }
}

/// Join on one side if there is an explicit leaf.
fn join_side(tdd: &mut Tdd, limits: &mut ApplyLimits, p: VtreeIdx, side: ChildSide) -> (r: Result<
    bool,
    ApplyError,
>)
    requires
        old(tdd).wf(),
        old(tdd).weights_wf(),
        p.0 < old(tdd).vtree.n(),
        !old(tdd).vtree.leaf_at(p.0 as int),
        !old(tdd).levels@[p.0 as int].marginal(),
    ensures
        carried(*old(limits), *final(limits)),
        refines(*old(tdd), *final(tdd), true),
        only_level(*old(tdd), *final(tdd), p.0 as int),
        match r {
            Ok(fired) => {
                &&& fired == (leaf_below(*old(tdd), p.0 as int, side) && joinable(
                    old(tdd).levels@[p.0 as int],
                    side,
                ))
                &&& !fired ==> *final(tdd) == *old(tdd)
                &&& fired ==> joined_upto(
                    old(tdd).levels@[p.0 as int],
                    final(tdd).levels@[p.0 as int],
                    side,
                    old(tdd).levels@[p.0 as int].nodes@.len() as int,
                )
                &&& join_kept(*old(tdd), *final(tdd))
            },
            Err(e) => e == ApplyError::OverBudget && denied(*final(limits)),
        },
{
    let ghost t0 = *tdd;
    proof {
        assert(tdd.vtree.node_wf(p.0 as int));
        lemma_refines_refl(*tdd, true);
    }
    let (l, r) = tdd.vtree.children(p);
    let c = match side {
        ChildSide::Left => l,
        ChildSide::Right => r,
    };
    if tdd.vtree.is_leaf(c) && !tdd.levels[c.idx()].is_marginal() {
        let r = join_leaf(tdd, limits, p, side);
        proof {
            if r == Ok::<bool, ApplyError>(true) && tame(t0) {
                let pi = p.0 as int;
                assert(tdd.levels@[pi].marginal() == t0.levels@[pi].marginal());
                lemma_join_tame(t0, *tdd, pi, side);
                assert forall|u: int, sd: ChildSide|
                    0 <= u < t0.levels@.len() && calm(t0.levels@[u], sd) implies #[trigger] calm(
                    tdd.levels@[u],
                    sd,
                ) by {
                    if u != pi {
                        assert(tdd.levels@[u] == t0.levels@[u]);
                    }
                }
            }
        }
        r
    } else {
        Ok(false)
    }
}

/// Join the literals of the leaves below level `p` until none can be.
fn join_level(tdd: &mut Tdd, limits: &mut ApplyLimits, p: VtreeIdx) -> (r: Result<bool, ApplyError>)
    requires
        old(tdd).wf(),
        old(tdd).weights_wf(),
        p.0 < old(tdd).vtree.n(),
        !old(tdd).vtree.leaf_at(p.0 as int),
        !old(tdd).levels@[p.0 as int].marginal(),
    ensures
        carried(*old(limits), *final(limits)),
        refines(*old(tdd), *final(tdd), true),
        only_level(*old(tdd), *final(tdd), p.0 as int),
        match r {
            Ok(fired) => {
                &&& leaves_at_rest(*final(tdd), p.0 as int)
                &&& fired == !leaves_at_rest(*old(tdd), p.0 as int)
                &&& !fired ==> *final(tdd) == *old(tdd)
                &&& join_kept(*old(tdd), *final(tdd))
            },
            Err(e) => e == ApplyError::OverBudget && denied(*final(limits)),
        },
{
    let ghost t0 = *tdd;
    let pi: usize = p.idx();
    let left: bool = match join_side(tdd, limits, p, ChildSide::Left) {
        Ok(b) => b,
        Err(e) => {
            return Err(e);
        },
    };
    let ghost t1 = *tdd;
    proof {
        if left {
            lemma_joined_settles(t0.levels@[pi as int], t1.levels@[pi as int], ChildSide::Left);
        }
        lemma_leaf_below_same(t0, t1, pi as int);
    }
    let right: bool = match join_side(tdd, limits, p, ChildSide::Right) {
        Ok(b) => b,
        Err(e) => {
            proof {
                lemma_refines_trans(t0, t1, *tdd, true, true, true);
            }
            return Err(e);
        },
    };
    let ghost t2 = *tdd;
    proof {
        lemma_refines_trans(t0, t1, t2, true, true, true);
        lemma_join_kept_trans(t0, t1, t2);
        if right {
            lemma_joined_settles(t1.levels@[pi as int], t2.levels@[pi as int], ChildSide::Right);
        }
        lemma_leaf_below_same(t1, t2, pi as int);
    }
    if right {
        let again = join_side(tdd, limits, p, ChildSide::Left);
        proof {
            lemma_refines_trans(t0, t2, *tdd, true, true, true);
            lemma_leaf_below_same(t2, *tdd, pi as int);
        }
        match again {
            Ok(b) => {
                proof {
                    lemma_join_kept_trans(t0, t2, *tdd);
                    if b {
                        lemma_joined_settles(
                            t2.levels@[pi as int],
                            tdd.levels@[pi as int],
                            ChildSide::Left,
                        );
                    }
                    if !left {
                        assert(t1 == t0);
                    }
                }
            },
            Err(e) => {
                return Err(e);
            },
        }
    }
    Ok(left || right)
}

/// What stands below a level does not change.
proof fn lemma_leaf_below_same(a: Tdd, b: Tdd, p: int)
    requires
        a.wf(),
        0 <= p < a.vtree.n(),
        !a.vtree.leaf_at(p),
        only_level(a, b, p),
        same_frame(a, b),
    ensures
        forall|side: ChildSide| leaf_below(b, p, side) == #[trigger] leaf_below(a, p, side),
{
    assert(a.vtree.node_wf(p));
    assert(b.levels@[p].marginal() == a.levels@[p].marginal());
    assert forall|side: ChildSide| leaf_below(b, p, side) == #[trigger] leaf_below(a, p, side) by {
        let c = side_child(*a.vtree, p, side);
        assert(b.levels@[c].marginal() == a.levels@[c].marginal());
    }
}

/// Whether leaves can be joined depends on the lists of their level.
proof fn lemma_rest_frame(a: Tdd, b: Tdd, q: int)
    requires
        a.wf(),
        same_frame(a, b),
        0 <= q < a.vtree.n(),
        b.levels@[q] == a.levels@[q],
    ensures
        leaves_at_rest(b, q) == leaves_at_rest(a, q),
{
    assert(a.vtree.node_wf(q));
    if !a.vt().leaf_at(q) {
        assert(b.levels@[a.vtree.left_at(q)].marginal() == a.levels@[a.vtree.left_at(
            q,
        )].marginal());
        assert(b.levels@[a.vtree.right_at(q)].marginal() == a.levels@[a.vtree.right_at(
            q,
        )].marginal());
    }
}

/// Marks do not matter to the value.
pub proof fn lemma_marks_only(t0: Tdd, a: Tdd, b: Tdd)
    requires
        t0.wf(),
        refines(t0, a, true),
        b == (Tdd {
            dirty_contract: b.dirty_contract,
            dirty_leaf_contract: b.dirty_leaf_contract,
            c2_rescan: b.c2_rescan,
            c2_next_at: b.c2_next_at,
            ..a
        }),
    ensures
        refines(t0, b, true),
        same_frame(a, b),
{
    lemma_same_keeps(a, b, true);
    lemma_keeps_trans(t0, a, b, true, true, true);
    if t0.unweighted() {
        assert forall|seed: spec_fn(int, int) -> nat| fair(t0, seed, true) implies #[trigger] output_val(
            b,
            seed,
        ) == output_val(t0, seed) by {
            assert(output_val(a, seed) == output_val(t0, seed));
        }
    }
}

/// Only marked levels change, and those that do are marked for contraction.
pub open spec fn joins_noted(a: Tdd, b: Tdd) -> bool {
    forall|u: int|
        0 <= u < a.levels@.len() && #[trigger] b.levels@[u] != a.levels@[u] ==> marked(
            a.dirty_leaf_contract@,
            u,
        ) && marked(b.dirty_contract@, u)
}

/// Join the literals of the leaves below every marked level, and take the
/// marks away. A level whose lists changed is marked for contraction. Whether
/// any did comes back.
#[verifier::spinoff_prover]
pub fn contract_leaf_twins(tdd: &mut Tdd, limits: &mut ApplyLimits) -> (r: Result<bool, ApplyError>)
    requires
        old(tdd).wf(),
        old(tdd).weights_wf(),
    ensures
        carried(*old(limits), *final(limits)),
        refines(*old(tdd), *final(tdd), true),
        *final(tdd) == (Tdd {
            levels: final(tdd).levels,
            dirty_contract: final(tdd).dirty_contract,
            dirty_leaf_contract: final(tdd).dirty_leaf_contract,
            ..*old(tdd)
        }),
        forall|u: int|
            0 <= u < old(tdd).levels@.len() ==> (#[trigger] final(tdd).levels@[u]).nodes@.len()
                == old(tdd).levels@[u].nodes@.len(),
        old(tdd).dirty_leaf_contract@.len() == 0 ==> r == Ok::<bool, ApplyError>(false),
        match r {
            Ok(fired) => {
                &&& final(tdd).dirty_leaf_contract@.len() == 0
                &&& forall|p: int|
                    0 <= p < old(tdd).vtree.n() && marked(old(tdd).dirty_leaf_contract@, p)
                        ==> #[trigger] leaves_at_rest(*final(tdd), p)
                &&& fired == exists|p: int|
                    0 <= p < old(tdd).vtree.n() && marked(old(tdd).dirty_leaf_contract@, p)
                        && !(#[trigger] leaves_at_rest(*old(tdd), p))
                &&& !fired ==> final(tdd).levels == old(tdd).levels && final(tdd).dirty_contract
                    == old(tdd).dirty_contract
                &&& joins_noted(*old(tdd), *final(tdd))
                &&& join_kept(*old(tdd), *final(tdd))
            },
            Err(e) => e == ApplyError::OverBudget && denied(*final(limits)),
        },
{
    let ghost t0 = *tdd;
    let ghost vt = tdd.vt();
    let n: usize = tdd.vtree.num_nodes();
    let mut list: Vec<u32> = Vec::new();
    std::mem::swap(&mut list, &mut tdd.dirty_leaf_contract);
    let ghost marks = list@;
    let m: usize = list.len();
    let mut fired: bool = false;
    let mut k: usize = 0;
    proof {
        lemma_refines_refl(t0, true);
        assert forall|seed: spec_fn(int, int) -> nat| #[trigger] output_val(*tdd, seed)
            == output_val(t0, seed) by {}
        lemma_same_keeps(t0, *tdd, true);
        assert(refines(t0, *tdd, true));
        lemma_join_kept_marks(t0, *tdd);
    }
    while k < m
        invariant
            k <= m,
            m == list@.len(),
            marks == list@,
            marks == t0.dirty_leaf_contract@,
            n == vt.n(),
            vt == t0.vt(),
            t0 == *old(tdd),
            t0.wf(),
            t0.weights_wf(),
            refines(t0, *tdd, true),
            *tdd == (Tdd {
                levels: tdd.levels,
                dirty_contract: tdd.dirty_contract,
                dirty_leaf_contract: tdd.dirty_leaf_contract,
                ..t0
            }),
            forall|u: int|
                0 <= u < t0.levels@.len() ==> (#[trigger] tdd.levels@[u]).nodes@.len()
                    == t0.levels@[u].nodes@.len(),
            tdd.dirty_leaf_contract@.len() == 0,
            carried(*old(limits), *limits),
            forall|j: int|
                0 <= j < k && (#[trigger] marks[j]) < n ==> leaves_at_rest(*tdd, marks[j] as int),
            forall|p: int|
                0 <= p < n && (#[trigger] tdd.levels@[p]) != t0.levels@[p] ==> leaves_at_rest(
                    *tdd,
                    p,
                ) && fired,
            fired ==> exists|p: int|
                0 <= p < n && marked(marks, p) && !(#[trigger] leaves_at_rest(t0, p)),
            !fired ==> tdd.levels == t0.levels && tdd.dirty_contract == t0.dirty_contract,
            joins_noted(t0, *tdd),
            join_kept(t0, *tdd),
        decreases m - k,
    {
        let pi: usize = list[k] as usize;
        if pi < n {
            let p = VtreeIdx(pi as u32);
            proof {
                assert(vt.node_wf(pi as int));
            }
            if !tdd.vtree.is_leaf(p) && !tdd.levels[pi].is_marginal() {
                let ghost before = *tdd;
                let step = join_level(tdd, limits, p);
                proof {
                    lemma_refines_trans(t0, before, *tdd, true, true, true);
                    assert forall|u: int| 0 <= u < t0.levels@.len() implies (
                    #[trigger] tdd.levels@[u]).nodes@.len() == t0.levels@[u].nodes@.len() by {
                        assert(before.levels@[u].nodes@.len() == t0.levels@[u].nodes@.len());
                    }
                    assert(marks[k as int] == pi);
                    assert(marked(marks, pi as int));
                    assert forall|q: int| 0 <= q < n && q != pi implies leaves_at_rest(*tdd, q)
                        == #[trigger] leaves_at_rest(before, q) by {
                        lemma_rest_frame(before, *tdd, q);
                    }
                }
                match step {
                    Ok(hit) => {
                        proof {
                            lemma_join_kept_trans(t0, before, *tdd);
                        }
                        if hit {
                            proof {
                                if t0.levels@[pi as int] != before.levels@[pi as int] {
                                    assert(leaves_at_rest(before, pi as int));
                                    assert(false);
                                }
                                lemma_rest_frame(t0, before, pi as int);
                                assert(!leaves_at_rest(t0, pi as int));
                            }
                            fired = true;
                            let ghost joined_now = *tdd;
                            tdd.dirty_contract.push(p.0);
                            proof {
                                lemma_marked_push(joined_now.dirty_contract@, p.0);
                                lemma_join_kept_marks(joined_now, *tdd);
                                lemma_join_kept_trans(t0, joined_now, *tdd);
                                assert(joins_noted(t0, *tdd)) by {
                                    assert forall|u: int|
                                        0 <= u < t0.levels@.len() && #[trigger] tdd.levels@[u]
                                            != t0.levels@[u] implies marked(marks, u) && marked(
                                        tdd.dirty_contract@,
                                        u,
                                    ) by {
                                        if u != pi {
                                            assert(before.levels@[u] != t0.levels@[u]);
                                            assert(marked(before.dirty_contract@, u));
                                        }
                                    }
                                }
                                lemma_marks_only(t0, joined_now, *tdd);
                                assert forall|q: int| 0 <= q < n implies leaves_at_rest(*tdd, q)
                                    == #[trigger] leaves_at_rest(joined_now, q) by {
                                    lemma_rest_frame(joined_now, *tdd, q);
                                }
                            }
                        }
                    },
                    Err(e) => {
                        return Err(e);
                    },
                }
            } else {
                assert(leaves_at_rest(*tdd, pi as int));
            }
        }
        k += 1;
    }
    proof {
        assert forall|p: int| 0 <= p < n && marked(marks, p) implies #[trigger] leaves_at_rest(
        *tdd, p) by {
            let j = choose|j: int| 0 <= j < marks.len() && #[trigger] marks[j] == p;
            assert(leaves_at_rest(*tdd, marks[j] as int));
        }
        if !fired {
            assert forall|p: int| 0 <= p < n && marked(marks, p) implies #[trigger] leaves_at_rest(
            t0, p) by {
                assert(leaves_at_rest(*tdd, p));
            }
        }
    }
    Ok(fired)
}

} // verus!
