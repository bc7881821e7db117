//! The diagram of a clause is in canonical form.

use super::{
    blank, clause_lists, doubled, held_pairs, held_ref, is_clause, is_one, lists_are, one_lists,
    pair_of, relevant, sibling, unheld_pairs, unheld_ref,
};
use crate::canonical::{canonical, lemma_parent, unambiguous};
use crate::conjoin::{orderly, plain};
use crate::level::{
    side_ref, ChildSide, InputPair, TddLevel, NEG_LEAF_RAW, ONE_LEAF_RAW, POS_LEAF_RAW, ZERO_RAW,
};
use crate::minimize::canon::all_marked;
use crate::minimize::contract::content_twin::side_under;
use crate::minimize::contract::contract_leaf::leaves_at_rest;
use crate::minimize::contract::strategies::marked;
use crate::minimize::tame::{
    alike, calm, full, leaf_clear, lemma_calm_canonical, lemma_named_uses, lemma_tame_from, lone,
    pair_on, uses,
};
use crate::tdd::Tdd;
use crate::vtree::{Literal, Vtree};
use vstd::prelude::*;

verus! {

/// Where a literal lies below `t`, its two nodes have different references.
proof fn lemma_refs_differ(vt: Vtree, clause: Seq<Literal>, t: int)
    ensures
        relevant(vt, clause, t) ==> held_ref(vt, clause, t) != unheld_ref(vt, clause, t),
        !relevant(vt, clause, t) ==> unheld_ref(vt, clause, t) == 0,
{
}

/// The pair `q` is the one at `k` of node `n`.
spec fn at(level: TddLevel, n: int, k: int, q: InputPair) -> bool {
    0 <= n < level.nodes@.len() && 0 <= k < level.pairs_at(n).len() && level.pairs_at(n)[k] == q
}

/// A pair that is there makes its level use it.
proof fn lemma_at_uses(level: TddLevel, n: int, k: int, q: InputPair)
    requires
        at(level, n, k, q),
    ensures
        uses(level, ChildSide::Left, q.left.0 as int),
        uses(level, ChildSide::Right, q.right.0 as int),
        level.pairs_at(n).contains(q),
{
    assert(side_ref(level.pairs_at(n)[k], ChildSide::Left) == q.left.0 as int);
    assert(side_ref(level.pairs_at(n)[k], ChildSide::Right) == q.right.0 as int);
}

/// What one level of a clause's diagram holds.
spec fn level_fine(vt: Vtree, clause: Seq<Literal>, level: TddLevel, t: int) -> bool {
    let l = vt.left_at(t);
    let r = vt.right_at(t);
    &&& lone(level)
    &&& full(level)
    &&& forall|i: int| #[trigger]
        uses(level, ChildSide::Left, i) ==> i == unheld_ref(vt, clause, l) || (relevant(
            vt,
            clause,
            l,
        ) && i == held_ref(vt, clause, l))
    &&& forall|i: int| #[trigger]
        uses(level, ChildSide::Right, i) ==> i == unheld_ref(vt, clause, r) || (relevant(
            vt,
            clause,
            r,
        ) && i == held_ref(vt, clause, r))
    &&& calm(level, ChildSide::Left)
    &&& calm(level, ChildSide::Right)
    &&& relevant(vt, clause, l) ==> uses(level, ChildSide::Left, held_ref(vt, clause, l) as int)
    &&& relevant(vt, clause, r) ==> uses(level, ChildSide::Right, held_ref(vt, clause, r) as int)
    &&& !relevant(vt, clause, l) || relevant(vt, clause, r) || doubled(vt, clause, t) ==> uses(
        level,
        ChildSide::Left,
        unheld_ref(vt, clause, l) as int,
    )
    &&& !relevant(vt, clause, r) || relevant(vt, clause, l) || doubled(vt, clause, t) ==> uses(
        level,
        ChildSide::Right,
        unheld_ref(vt, clause, r) as int,
    )
}

/// Two nodes of which one has a partner in a list that the other lacks.
proof fn lemma_not_alike(level: TddLevel, side: ChildSide, i: u32, j: u32, n: int, y: u32)
    requires
        0 <= n < level.nodes@.len(),
        level.pairs_at(n).contains(pair_on(side, i, y)) != level.pairs_at(n).contains(
            pair_on(side, j, y),
        ),
    ensures
        !alike(level, side, i, j),
        !alike(level, side, j, i),
{
    if alike(level, side, j, i) {
        assert(level.pairs_at(n).contains(pair_on(side, j, y)) == level.pairs_at(n).contains(
            pair_on(side, i, y),
        ));
    }
}

/// The levels of a clause's diagram are fine.
proof fn lemma_clause_level(vt: Vtree, clause: Seq<Literal>, level: TddLevel, t: int)
    requires
        vt.wf(),
        0 <= t < vt.n(),
        !vt.leaf_at(t),
        lists_are(level, clause_lists(vt, clause, t)),
    ensures
        level_fine(vt, clause, level, t),
{
    let l = vt.left_at(t);
    let r = vt.right_at(t);
    assert(vt.node_wf(t));
    assert(vt.node_wf(l) && vt.node_wf(r));
    lemma_refs_differ(vt, clause, l);
    lemma_refs_differ(vt, clause, r);
    let hl = held_ref(vt, clause, l);
    let hr = held_ref(vt, clause, r);
    let ul = unheld_ref(vt, clause, l);
    let ur = unheld_ref(vt, clause, r);
    let rl = relevant(vt, clause, l);
    let rr = relevant(vt, clause, r);
    let lists = clause_lists(vt, clause, t);
    assert(relevant(vt, clause, t) == (rl || rr));
    let held = held_pairs(vt, clause, t);
    let unheld = unheld_pairs(vt, clause, t);
    let two = relevant(vt, clause, t) && doubled(vt, clause, t);
    assert(level.nodes@.len() == lists.len());
    assert(level.pairs_at(0) == lists[0]);
    if two {
        assert(level.pairs_at(1) == lists[1]);
        assert(at(level, 1, 0, pair_of(ul, ur)));
        lemma_at_uses(level, 1, 0, pair_of(ul, ur));
    }
    if !rl && !rr {
        assert(at(level, 0, 0, pair_of(ul, ur)));
        lemma_at_uses(level, 0, 0, pair_of(ul, ur));
    } else if !rl {
        assert(at(level, 0, 0, pair_of(ul, hr)));
        lemma_at_uses(level, 0, 0, pair_of(ul, hr));
    } else if !rr {
        assert(at(level, 0, 0, pair_of(hl, ur)));
        lemma_at_uses(level, 0, 0, pair_of(hl, ur));
    } else {
        assert(at(level, 0, 0, pair_of(hl, hr)));
        assert(at(level, 0, 1, pair_of(hl, ur)));
        assert(at(level, 0, 2, pair_of(ul, hr)));
        lemma_at_uses(level, 0, 0, pair_of(hl, hr));
        lemma_at_uses(level, 0, 1, pair_of(hl, ur));
        lemma_at_uses(level, 0, 2, pair_of(ul, hr));
    }
    // Every pair of the level is one of these.
    assert forall|n: int, k: int|
        0 <= n < level.nodes@.len() && 0 <= k < level.pairs_at(n).len() implies {
        let q = #[trigger] level.pairs_at(n)[k];
        if n == 1 || (!rl && !rr) {
            k == 0 && q == pair_of(ul, ur)
        } else if !rl {
            k == 0 && q == pair_of(ul, hr)
        } else if !rr {
            k == 0 && q == pair_of(hl, ur)
        } else if k == 0 {
            q == pair_of(hl, hr)
        } else if k == 1 {
            q == pair_of(hl, ur)
        } else {
            k == 2 && q == pair_of(ul, hr)
        }
    } by {
        assert(level.pairs_at(n) == lists[n]);
    }
    assert(lone(level));
    assert(full(level)) by {
        assert forall|i: int| 0 <= i < level.nodes@.len() implies (
        #[trigger] level.pairs_at(i)).len() > 0 by {
            assert(level.pairs_at(i) == lists[i]);
        }
    }
    assert forall|i: int| #[trigger] uses(level, ChildSide::Left, i) implies i == ul || (rl && i
        == hl) by {
        let (n, k) = choose|n: int, k: int|
            0 <= n < level.nodes@.len() && 0 <= k < level.pairs_at(n).len() && side_ref(
                #[trigger] level.pairs_at(n)[k],
                ChildSide::Left,
            ) == i;
    }
    assert forall|i: int| #[trigger] uses(level, ChildSide::Right, i) implies i == ur || (rr && i
        == hr) by {
        let (n, k) = choose|n: int, k: int|
            0 <= n < level.nodes@.len() && 0 <= k < level.pairs_at(n).len() && side_ref(
                #[trigger] level.pairs_at(n)[k],
                ChildSide::Right,
            ) == i;
    }
    if rl {
        assert(level.pairs_at(0).contains(pair_of(hl, ur)));
        assert(!level.pairs_at(0).contains(pair_of(ul, ur))) by {
            if level.pairs_at(0).contains(pair_of(ul, ur)) {
                let k = choose|k: int|
                    0 <= k < level.pairs_at(0).len() && level.pairs_at(0)[k] == pair_of(ul, ur);
                assert(level.pairs_at(0)[k] == pair_of(ul, ur));
            }
        }
        assert(pair_on(ChildSide::Left, hl, ur) == pair_of(hl, ur));
        assert(pair_on(ChildSide::Left, ul, ur) == pair_of(ul, ur));
        lemma_not_alike(level, ChildSide::Left, hl, ul, 0, ur);
    }
    if rr {
        assert(level.pairs_at(0).contains(pair_of(ul, hr)));
        assert(!level.pairs_at(0).contains(pair_of(ul, ur))) by {
            if level.pairs_at(0).contains(pair_of(ul, ur)) {
                let k = choose|k: int|
                    0 <= k < level.pairs_at(0).len() && level.pairs_at(0)[k] == pair_of(ul, ur);
                assert(level.pairs_at(0)[k] == pair_of(ul, ur));
            }
        }
        assert(pair_on(ChildSide::Right, hr, ul) == pair_of(ul, hr));
        assert(pair_on(ChildSide::Right, ur, ul) == pair_of(ul, ur));
        lemma_not_alike(level, ChildSide::Right, hr, ur, 0, ul);
    }
    assert(calm(level, ChildSide::Left)) by {
        assert forall|i: u32, j: u32| #[trigger]
            uses(level, ChildSide::Left, i as int) && #[trigger] uses(
                level,
                ChildSide::Left,
                j as int,
            ) && i != j implies !alike(level, ChildSide::Left, i, j) by {}
    }
    assert(calm(level, ChildSide::Right)) by {
        assert forall|i: u32, j: u32| #[trigger]
            uses(level, ChildSide::Right, i as int) && #[trigger] uses(
                level,
                ChildSide::Right,
                j as int,
            ) && i != j implies !alike(level, ChildSide::Right, i, j) by {}
    }
}

/// The diagram of a clause is in canonical form, unless the clause is empty.
/// In either case no pair occurs twice.
pub proof fn law_clause_is_canonical(tdd: Tdd, clause: Seq<Literal>)
    requires
        tdd.wf(),
        is_clause(tdd, clause),
    ensures
        unambiguous(tdd),
        tdd.output.local.0 != ZERO_RAW ==> canonical(tdd),
{
    let vt = tdd.vt();
    assert forall|t: int| 0 <= t < vt.n() implies !(#[trigger] tdd.levels@[t]).marginal() by {
        assert(lists_are(tdd.levels@[t], clause_lists(vt, clause, t)));
    }
    assert(plain(tdd));
    assert forall|t: int| 0 <= t < vt.n() && !vt.leaf_at(t) implies #[trigger] lone(tdd.levels@[t])
        && full(tdd.levels@[t]) && level_fine(vt, clause, tdd.levels@[t], t) by {
        assert(lists_are(tdd.levels@[t], clause_lists(vt, clause, t)));
        lemma_clause_level(vt, clause, tdd.levels@[t], t);
    }
    assert forall|t: int|
        0 <= t < vt.n() && vt.leaf_at(t) && vt.parent_at(t) is Some implies #[trigger] leaf_clear(
        tdd,
        t,
    ) by {
        lemma_parent(vt, t);
        let p = vt.up(t);
        assert(lone(tdd.levels@[p]));
        assert(level_fine(vt, clause, tdd.levels@[p], p));
        lemma_refs_differ(vt, clause, t);
    }
    assert(unambiguous(tdd)) by {
        assert forall|t: int, i: int, k: int, j: int, m: int|
            0 <= t < tdd.vtree.n() && !tdd.vtree.leaf_at(t) && 0 <= i
                < tdd.levels@[t].nodes@.len() && 0 <= j < tdd.levels@[t].nodes@.len() && 0 <= k
                < tdd.levels@[t].pairs_at(i).len() && 0 <= m < tdd.levels@[t].pairs_at(j).len()
                && #[trigger] tdd.levels@[t].pairs_at(i)[k] == #[trigger] tdd.levels@[t].pairs_at(
                j,
            )[m] implies i == j && k == m by {
            assert(lone(tdd.levels@[t]));
        }
        assert forall|t: int|
            0 <= t < vt.n() && vt.leaf_at(t) && #[trigger] crate::canonical::named(
                tdd,
                t,
                ONE_LEAF_RAW as int,
            ) implies !crate::canonical::named(tdd, t, POS_LEAF_RAW as int)
            && !crate::canonical::named(tdd, t, NEG_LEAF_RAW as int) by {
            assert(vt.node_wf(t));
            if vt.parent_at(t) is Some {
                assert(leaf_clear(tdd, t));
                lemma_named_uses(tdd, t, ONE_LEAF_RAW as int);
                lemma_named_uses(tdd, t, POS_LEAF_RAW as int);
                lemma_named_uses(tdd, t, NEG_LEAF_RAW as int);
            }
        }
    }
    if tdd.output.local.0 != ZERO_RAW {
        assert forall|t: int, i: int|
            0 <= t < vt.n() && !vt.leaf_at(t) && vt.parent_at(t) is Some && 0 <= i
                < tdd.levels@[t].nodes@.len() implies #[trigger] uses(
            tdd.levels@[vt.up(t)],
            side_under(vt, vt.up(t), t),
            i,
        ) by {
            lemma_parent(vt, t);
            let p = vt.up(t);
            assert(lone(tdd.levels@[p]));
            assert(level_fine(vt, clause, tdd.levels@[p], p));
            assert(lists_are(tdd.levels@[t], clause_lists(vt, clause, t)));
            assert(doubled(vt, clause, t) == (relevant(vt, clause, sibling(vt, t)) || doubled(
                vt,
                clause,
                p,
            )));
        }
        assert forall|t: int|
            0 <= t < vt.n() && !vt.leaf_at(t) && #[trigger] vt.parent_at(t) is None implies tdd.levels@[t].nodes@.len()
            == 1 by {
            assert(vt.node_wf(t));
            assert(vt.root.0 == t);
            assert(lists_are(tdd.levels@[t], clause_lists(vt, clause, t)));
            assert(!doubled(vt, clause, t));
        }
        lemma_tame_from(tdd);
        assert forall|t: int, side: ChildSide|
            0 <= t < vt.n() && !vt.leaf_at(t) implies #[trigger] calm(tdd.levels@[t], side) by {
            assert(lone(tdd.levels@[t]));
            assert(level_fine(vt, clause, tdd.levels@[t], t));
        }
        lemma_calm_canonical(tdd);
    }
}

/// A diagram in canonical form is orderly while every level is marked.
proof fn lemma_canonical_orderly(tdd: Tdd)
    requires
        unambiguous(tdd),
        tdd.output.local.0 != ZERO_RAW ==> canonical(tdd),
        all_marked(tdd),
    ensures
        orderly(tdd),
{
    if tdd.output.local.0 != ZERO_RAW {
        assert forall|t: int| 0 <= t < tdd.vtree.n() && !tdd.vtree.leaf_at(t) implies #[trigger] full(
            tdd.levels@[t],
        ) by {
            assert forall|i: int| 0 <= i < tdd.levels@[t].nodes@.len() implies (
            #[trigger] tdd.levels@[t].pairs_at(i)).len() > 0 by {}
        }
        assert forall|t: int| 0 <= t < tdd.vtree.n() && !tdd.vtree.leaf_at(t) implies marked(
            tdd.dirty_leaf_contract@,
            t,
        ) || #[trigger] leaves_at_rest(tdd, t) by {
            assert(marked(tdd.dirty_contract@, t));
        }
    }
}

/// A fresh diagram of a clause is orderly.
pub proof fn lemma_clause_orderly(tdd: Tdd, clause: Seq<Literal>)
    requires
        tdd.wf(),
        is_clause(tdd, clause),
        all_marked(tdd),
    ensures
        orderly(tdd),
{
    law_clause_is_canonical(tdd, clause);
    lemma_canonical_orderly(tdd);
}

/// The diagram of the constant true is in canonical form.
pub proof fn law_one_is_canonical(tdd: Tdd)
    requires
        tdd.wf(),
        is_one(tdd),
    ensures
        canonical(tdd),
{
    let vt = tdd.vt();
    let zero = pair_of(0, 0);
    assert forall|t: int| 0 <= t < vt.n() implies !(#[trigger] tdd.levels@[t]).marginal() by {
        assert(lists_are(
            tdd.levels@[t],
            if vt.leaf_at(t) {
                Seq::empty()
            } else {
                one_lists()
            },
        ));
    }
    assert(plain(tdd));
    assert forall|t: int| 0 <= t < vt.n() && !vt.leaf_at(t) implies {
        let level = #[trigger] tdd.levels@[t];
        &&& level.nodes@.len() == 1
        &&& level.pairs_at(0) == seq![zero]
        &&& lone(level)
        &&& full(level)
        &&& forall|side: ChildSide, i: int| #[trigger] uses(level, side, i) <==> i == 0
    } by {
        let level = tdd.levels@[t];
        assert(lists_are(level, one_lists()));
        assert(one_lists()[0] == seq![zero]);
        assert(level.pairs_at(0) == seq![zero]);
        assert(level.pairs_at(0)[0] == zero);
    }
    assert forall|t: int|
        0 <= t < vt.n() && vt.leaf_at(t) && vt.parent_at(t) is Some implies #[trigger] leaf_clear(
        tdd,
        t,
    ) by {
        lemma_parent(vt, t);
        let p = vt.up(t);
        assert(lone(tdd.levels@[p]));
    }
    assert forall|t: int, i: int|
        0 <= t < vt.n() && !vt.leaf_at(t) && vt.parent_at(t) is Some && 0 <= i
            < tdd.levels@[t].nodes@.len() implies #[trigger] uses(
        tdd.levels@[vt.up(t)],
        side_under(vt, vt.up(t), t),
        i,
    ) by {
        lemma_parent(vt, t);
        assert(lone(tdd.levels@[t]));
        assert(lone(tdd.levels@[vt.up(t)]));
    }
    lemma_tame_from(tdd);
    assert forall|t: int, side: ChildSide|
        0 <= t < vt.n() && !vt.leaf_at(t) implies #[trigger] calm(tdd.levels@[t], side) by {
        assert(lone(tdd.levels@[t]));
    }
    lemma_calm_canonical(tdd);
}

/// A fresh diagram of the constant true is orderly.
pub proof fn lemma_one_orderly(tdd: Tdd)
    requires
        tdd.wf(),
        is_one(tdd),
        all_marked(tdd),
    ensures
        orderly(tdd),
        canonical(tdd),
{
    law_one_is_canonical(tdd);
    lemma_canonical_orderly(tdd);
}

/// A diagram without nodes is orderly.
pub proof fn lemma_blank_orderly(tdd: Tdd)
    requires
        tdd.vtree.wf(),
        tdd.levels@.len() == tdd.vtree.n(),
        tdd.output.local.0 == ZERO_RAW,
        forall|t: int| 0 <= t < tdd.vtree.n() ==> blank(#[trigger] tdd.levels@[t]),
    ensures
        orderly(tdd),
{
    let vt = tdd.vt();
    assert forall|t: int, i: int|
        0 <= t < vt.n() && vt.parent_at(t) is Some implies !(#[trigger] crate::canonical::named(
        tdd,
        t,
        i,
    )) by {
        lemma_parent(vt, t);
        lemma_named_uses(tdd, t, i);
        assert(blank(tdd.levels@[vt.up(t)]));
    }
    assert forall|t: int| 0 <= t < vt.n() implies (#[trigger] tdd.levels@[t]).nodes@.len() == 0 by {
        assert(blank(tdd.levels@[t]));
    }
    assert forall|t: int|
        0 <= t < vt.n() && vt.leaf_at(t) && #[trigger] crate::canonical::named(
            tdd,
            t,
            ONE_LEAF_RAW as int,
        ) implies !crate::canonical::named(tdd, t, POS_LEAF_RAW as int)
        && !crate::canonical::named(tdd, t, NEG_LEAF_RAW as int) by {}
}

} // verus!
