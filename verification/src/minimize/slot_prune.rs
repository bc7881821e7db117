//! Packing the stores of summed out levels.
//!
//! A store below an explicit level keeps one slot per value that the lists
//! above it name. A store below a summed out level is named by nothing and is
//! emptied.

use super::contract::p_fusion::boundary_at;
use super::refine::{
    fair, lemma_refines_refl, lemma_refines_trans, output_on_top, refines, same_frame,
};
use super::remap::{
    lemma_mapped_psum, map_side_refs, mappable, mapped_list, mapped_pair, mapped_ref, mapped_upto,
    moves_well, side_vals,
};
use super::worth_lists::{lemma_emptied_keeps, lemma_packed_keeps};
use crate::big_side::BigSide;
use crate::counts::{Count, CountVec, STREAM_OVERFLOW};
use crate::level::{get_side_ref, side_ref, ChildSide, InputPair, TddLevel, COUNT_OVERFLOW};
use crate::marg_ref::{marg_ref, MargRef, MARG_INLINE_MAX};
use crate::marg_slots::{count_key_at, CountKey, SlotInterner};
use crate::tdd::{
    col, differs_at, eff_width, lemma_col_internal, lemma_frame, lemma_frame_below, levels_wf,
    list_ok, output_val, pair_ok, psum, refs_ok, same_level, sides, Tdd,
};
use crate::vtree::VtreeIdx;
use vstd::prelude::*;

verus! {

/// Some slot in use is called `j`.
pub open spec fn is_name(used: Seq<bool>, table: Seq<u32>, k: int, j: int) -> bool {
    exists|s: int| 0 <= s < k && #[trigger] used[s] && table[s] == j
}

/// The packed store: every slot in use has its value under its new name, every
/// new slot is the name of one in use, and no value stands twice.
pub open spec fn packed(
    level: TddLevel,
    used: Seq<bool>,
    out: CountVec,
    table: Seq<u32>,
    k: int,
) -> bool {
    &&& out.wf()
    &&& out.fast@.len() <= k
    &&& forall|s: int|
        0 <= s < k && #[trigger] used[s] ==> {
            &&& table[s] < out.fast@.len()
            &&& out.at(table[s] as int) == level.slot_count(s)
            &&& out.fast@[table[s] as int] == level.marginal_counts->0@[s]
        }
    &&& forall|j: int| 0 <= j < out.fast@.len() ==> #[trigger] is_name(used, table, k, j)
    &&& forall|i: int, j: int|
        0 <= i < j < out.fast@.len() ==> !(#[trigger] out.at(i) == #[trigger] out.at(j) && (
        out.fast@[i] == STREAM_OVERFLOW) == (out.fast@[j] == STREAM_OVERFLOW))
}

/// Two slots in use get the same name.
pub open spec fn joins(used: Seq<bool>, table: Seq<u32>, k: int) -> bool {
    exists|a: int, b: int|
        0 <= a < b < k && #[trigger] used[a] && #[trigger] used[b] && table[a] == table[b]
}

/// The interner knows exactly the slots of the column.
spec fn knows(it: SlotInterner, out: CountVec) -> bool {
    &&& forall|small: bool, val: nat|
        (#[trigger] it.find(small, val)) matches Some(j) ==> j < out.fast@.len() && out.at(j as int)
            == val && (out.fast@[j as int] != STREAM_OVERFLOW) == small
    &&& forall|j: int|
        0 <= j < out.fast@.len() ==> it.find(
            out.fast@[j] != STREAM_OVERFLOW,
            #[trigger] out.at(j),
        ) is Some
}

/// Pack the slots in use. Whether two of them held the same value comes back
/// too.
#[verifier::spinoff_prover]
#[verifier::rlimit(40)]
fn pack_store(level: &TddLevel, used: &Vec<bool>) -> (r: (CountVec, Vec<u32>, bool))
    requires
        level.store_wf(),
        level.marginal_counts is Some,
        used@.len() == level.marginal_counts->0@.len(),
    ensures
        r.1@.len() == used@.len(),
        packed(*level, used@, r.0, r.1@, used@.len() as int),
        r.2 == joins(used@, r.1@, used@.len() as int),
{
    let w: usize = used.len();
    let mut out = CountVec::with_width(0);
    let mut table: Vec<u32> = Vec::new();
    let mut it = SlotInterner::new();
    let mut joined: bool = false;
    let mut s: usize = 0;
    while s < w
        invariant
            s <= w,
            w == used@.len(),
            level.store_wf(),
            level.marginal_counts is Some,
            w == level.marginal_counts->0@.len(),
            w <= MARG_INLINE_MAX + 1,
            table@.len() == s,
            packed(*level, used@, out, table@, s as int),
            knows(it, out),
            joined == joins(used@, table@, s as int),
        decreases w - s,
    {
        let ghost t0 = table@;
        let ghost o0 = out;
        let ghost i0 = it;
        if used[s] {
            let key = count_key_at(level, s);
            match it.get(&key) {
                Some(j) => {
                    table.push(j);
                    joined = true;
                    proof {
                        assert(out.at(j as int) == level.slot_count(s as int));
                        assert(level.marginal_counts->0@[s as int] != COUNT_OVERFLOW ==> level.slot_count(
                        s as int) == level.marginal_counts->0@[s as int]);
                        assert(out.fast@[j as int] == level.marginal_counts->0@[s as int]);
                        assert(is_name(used@, t0, s as int, j as int));
                        let a = choose|a: int| 0 <= a < s && #[trigger] used@[a] && t0[a] == j;
                        assert(used@[a] && used@[s as int] && table@[a] == table@[s as int]);
                        assert forall|x: int| 0 <= x < s + 1 && #[trigger] used@[x] implies {
                            &&& table@[x] < out.fast@.len()
                            &&& out.at(table@[x] as int) == level.slot_count(x)
                            &&& out.fast@[table@[x] as int] == level.marginal_counts->0@[x]
                        } by {
                            if x < s {
                                assert(table@[x] == t0[x]);
                            }
                        }
                        assert forall|y: int| 0 <= y < out.fast@.len() implies #[trigger] is_name(
                            used@,
                            table@,
                            s + 1,
                            y,
                        ) by {
                            assert(is_name(used@, t0, s as int, y));
                            let x = choose|x: int| 0 <= x < s && #[trigger] used@[x] && t0[x] == y;
                            assert(used@[x] && table@[x] == y);
                        }
                        assert(packed(*level, used@, out, table@, s + 1));
                    }
                },
                None => {
                    let j: usize = out.len();
                    it.insert(&key, j as u32);
                    let c = match key {
                        CountKey::Small(v) => Count::Fast(v),
                        CountKey::Big(b) => Count::Big(b),
                    };
                    let ghost val = level.slot_count(s as int);
                    out.push_i(c);
                    table.push(j as u32);
                    proof {
                        assert(out.vals()[j as int] == out.at(j as int));
                        assert(out.at(j as int) == val);
                        assert(out.fast@[j as int] == level.marginal_counts->0@[s as int]);
                        assert forall|x: int| 0 <= x < j implies #[trigger] out.at(x) == o0.at(x)
                            && out.fast@[x] == o0.fast@[x] by {
                            assert(out.vals()[x] == out.at(x));
                            assert(o0.vals()[x] == o0.at(x));
                        }
                        assert forall|x: int| 0 <= x < s + 1 && #[trigger] used@[x] implies {
                            &&& table@[x] < out.fast@.len()
                            &&& out.at(table@[x] as int) == level.slot_count(x)
                            &&& out.fast@[table@[x] as int] == level.marginal_counts->0@[x]
                        } by {
                            if x < s {
                                assert(table@[x] == t0[x]);
                                assert(out.at(t0[x] as int) == o0.at(t0[x] as int));
                            }
                        }
                        assert forall|y: int| 0 <= y < out.fast@.len() implies #[trigger] is_name(
                            used@,
                            table@,
                            s + 1,
                            y,
                        ) by {
                            if y < j {
                                assert(is_name(used@, t0, s as int, y));
                                let x = choose|x: int|
                                    0 <= x < s && #[trigger] used@[x] && t0[x] == y;
                                assert(used@[x] && table@[x] == y);
                            } else {
                                assert(used@[s as int] && table@[s as int] == y);
                            }
                        }
                        assert forall|a: int, b: int| 0 <= a < b < out.fast@.len() implies !(
                        #[trigger] out.at(a) == #[trigger] out.at(b) && (out.fast@[a]
                            == STREAM_OVERFLOW) == (out.fast@[b] == STREAM_OVERFLOW)) by {
                            if b == j {
                                assert(out.at(a) == o0.at(a));
                                assert(i0.find(o0.fast@[a] != STREAM_OVERFLOW, o0.at(a)) is Some);
                            } else {
                                assert(out.at(a) == o0.at(a) && out.at(b) == o0.at(b));
                            }
                        }
                        assert(packed(*level, used@, out, table@, s + 1));
                        assert forall|y: int| 0 <= y < out.fast@.len() implies it.find(
                            out.fast@[y] != STREAM_OVERFLOW,
                            #[trigger] out.at(y),
                        ) is Some by {
                            if y < j {
                                assert(out.at(y) == o0.at(y));
                                assert(i0.find(o0.fast@[y] != STREAM_OVERFLOW, o0.at(y)) is Some);
                            }
                        }
                        assert forall|small: bool, v: nat| (#[trigger] it.find(small, v)) is Some implies ({
                            let q = it.find(small, v)->0;
                            &&& q < out.fast@.len()
                            &&& out.at(q as int) == v
                            &&& (out.fast@[q as int] != STREAM_OVERFLOW) == small
                        }) by {
                            if i0.find(small, v) is Some && it.find(small, v) == i0.find(small, v) {
                                let q = i0.find(small, v)->0;
                                assert(out.at(q as int) == o0.at(q as int));
                            }
                        }
                        assert(knows(it, out));
                        if joins(used@, table@, s + 1) {
                            let (a, b) = choose|a: int, b: int|
                                0 <= a < b < s + 1 && #[trigger] used@[a] && #[trigger] used@[b]
                                    && table@[a] == table@[b];
                            if b == s {
                                assert(t0[a] < o0.fast@.len());
                            } else {
                                assert(t0[a] == t0[b]);
                            }
                        }
                        if joined {
                            let (a, b) = choose|a: int, b: int|
                                0 <= a < b < s && #[trigger] used@[a] && #[trigger] used@[b]
                                    && t0[a] == t0[b];
                            assert(used@[a] && used@[b] && table@[a] == table@[b]);
                        }
                    }
                },
            }
        } else {
            table.push(0);
            proof {
                assert forall|x: int| 0 <= x < s + 1 && #[trigger] used@[x] implies table@[x]
                    == t0[x] by {}
                assert forall|y: int| 0 <= y < out.fast@.len() implies #[trigger] is_name(
                    used@,
                    table@,
                    s + 1,
                    y,
                ) by {
                    assert(is_name(used@, t0, s as int, y));
                    let x = choose|x: int| 0 <= x < s && #[trigger] used@[x] && t0[x] == y;
                    assert(used@[x] && table@[x] == y);
                }
                assert(packed(*level, used@, out, table@, s + 1));
                if joins(used@, table@, s + 1) {
                    let (a, b) = choose|a: int, b: int|
                        0 <= a < b < s + 1 && #[trigger] used@[a] && #[trigger] used@[b]
                            && table@[a] == table@[b];
                    assert(t0[a] == t0[b]);
                }
                if joined {
                    let (a, b) = choose|a: int, b: int|
                        0 <= a < b < s && #[trigger] used@[a] && #[trigger] used@[b] && t0[a]
                            == t0[b];
                    assert(used@[a] && used@[b] && table@[a] == table@[b]);
                }
            }
        }
        s += 1;
    }
    (out, table, joined)
}

/// Some list of the level names slot `s` on `side`.
pub open spec fn named_in(level: TddLevel, side: ChildSide, s: int) -> bool {
    exists|i: int, k: int|
        0 <= i < level.nodes@.len() && 0 <= k < level.pairs_at(i).len() && marg_ref(
            side_ref(#[trigger] level.pairs_at(i)[k], side),
        ) == MargRef::Slot(s as u32)
}

/// Which of the first `w` slots are named.
pub open spec fn used_slots(level: TddLevel, side: ChildSide, w: int) -> Seq<bool> {
    Seq::new(w as nat, |s: int| named_in(level, side, s))
}

/// Every reference can be read.
spec fn readable_refs(level: TddLevel, side: ChildSide, w: int) -> bool {
    forall|i: int|
        0 <= i < level.nodes@.len() ==> mappable(#[trigger] level.pairs_at(i), side, true, w)
}

/// Mark the slots that the lists of a level name.
fn mark_used(level: &TddLevel, side: ChildSide, w: usize) -> (r: Vec<bool>)
    requires
        level.arena_wf(),
        w <= MARG_INLINE_MAX + 1,
        readable_refs(*level, side, w as int),
    ensures
        r@ == used_slots(*level, side, w as int),
{
    let mut used: Vec<bool> = Vec::new();
    used.resize(w, false);
    let n: usize = level.nodes.len();
    let mut i: usize = 0;
    while i < n
        invariant
            i <= n,
            n == level.nodes@.len(),
            level.arena_wf(),
            w <= MARG_INLINE_MAX + 1,
            readable_refs(*level, side, w as int),
            used@.len() == w,
            forall|s: int|
                0 <= s < w && #[trigger] used@[s] ==> named_in(*level, side, s),
            forall|a: int, k: int|
                0 <= a < i && 0 <= k < level.pairs_at(a).len() ==> marks_slot(
                    used@,
                    side_ref(#[trigger] level.pairs_at(a)[k], side),
                ),
        decreases n - i,
    {
        let list = level.pairs_of_idx(i);
        assert(mappable(level.pairs_at(i as int), side, true, w as int));
        let m: usize = list.len();
        let mut k: usize = 0;
        while k < m
            invariant
                k <= m,
                m == list@.len(),
                i < level.nodes@.len(),
                list@ == level.pairs_at(i as int),
                mappable(list@, side, true, w as int),
                w <= MARG_INLINE_MAX + 1,
                used@.len() == w,
                forall|s: int|
                    0 <= s < w && #[trigger] used@[s] ==> named_in(*level, side, s),
                forall|a: int, q: int|
                    0 <= a < i && 0 <= q < level.pairs_at(a).len() ==> marks_slot(
                        used@,
                        side_ref(#[trigger] level.pairs_at(a)[q], side),
                    ),
                forall|q: int|
                    0 <= q < k ==> marks_slot(used@, side_ref(#[trigger] list@[q], side)),
            decreases m - k,
        {
            let raw: u32 = get_side_ref(list[k], side);
            assert(side_ref(list@[k as int], side) == raw);
            match MargRef::from_raw(raw) {
                MargRef::Slot(s) => {
                    let ghost before = used@;
                    used.set(s as usize, true);
                    proof {
                        assert(marg_ref(side_ref(level.pairs_at(i as int)[k as int], side))
                            == MargRef::Slot(s));
                        assert(named_in(*level, side, s as int));
                        assert forall|x: u32| #[trigger] marks_slot(before, x) implies marks_slot(
                            used@,
                            x,
                        ) by {}
                    }
                },
                MargRef::Inline(_) => {},
            }
            k += 1;
        }
        i += 1;
    }
    proof {
        assert forall|s: int| 0 <= s < w implies #[trigger] used@[s] == named_in(
            *level,
            side,
            s,
        ) by {
            if named_in(*level, side, s) {
                let (i, k) = choose|i: int, k: int|
                    0 <= i < level.nodes@.len() && 0 <= k < level.pairs_at(i).len() && marg_ref(
                        side_ref(#[trigger] level.pairs_at(i)[k], side),
                    ) == MargRef::Slot(s as u32);
                assert(marks_slot(used@, side_ref(level.pairs_at(i)[k], side)));
            }
        }
        assert(used@ =~= used_slots(*level, side, w as int));
    }
    used
}

/// The slot that the reference names is marked.
spec fn marks_slot(used: Seq<bool>, raw: u32) -> bool {
    marg_ref(raw) matches MargRef::Slot(s) ==> 0 <= s < used.len() ==> used[s as int]
}

/// A store as a column.
pub open spec fn store_vec(level: TddLevel) -> CountVec {
    CountVec {
        fast: level.marginal_counts->0,
        big: level.marginal_counts_big,
        all_u64: false,
    }
}

/// Level `v` has a store of counts of its own, below an explicit level `p`.
pub open spec fn store_under(tdd: Tdd, v: int, p: int, side: ChildSide) -> bool {
    &&& boundary_at(tdd, v, p, side)
    &&& !tdd.vtree.leaf_at(v)
    &&& tdd.levels@[v].marginal_counts is Some
}

/// The store of level `v` has been packed, and the lists of `p` renamed.
pub open spec fn store_packed(
    a: Tdd,
    b: Tdd,
    v: int,
    p: int,
    side: ChildSide,
    table: Seq<u32>,
) -> bool {
    let w = a.levels@[v].marginal_counts->0@.len() as int;
    &&& b == (Tdd { levels: b.levels, ..a })
    &&& b.levels@.len() == a.levels@.len()
    &&& forall|u: int|
        0 <= u < a.levels@.len() && u != v && u != p ==> #[trigger] b.levels@[u] == a.levels@[u]
    &&& b.levels@[v] == (TddLevel {
        marginal_counts: b.levels@[v].marginal_counts,
        marginal_counts_big: b.levels@[v].marginal_counts_big,
        ..a.levels@[v]
    })
    &&& b.levels@[v].marginal_counts is Some
    &&& table.len() == w
    &&& packed(
        a.levels@[v],
        used_slots(a.levels@[p], side, w),
        store_vec(b.levels@[v]),
        table,
        w,
    )
    &&& mapped_upto(
        a.levels@[p],
        b.levels@[p],
        side,
        true,
        table,
        a.levels@[p].nodes@.len() as int,
    )
}

/// The lists above a store can be renamed.
pub proof fn lemma_store_mappable(a: Tdd, v: int, p: int, side: ChildSide, i: int)
    requires
        a.wf(),
        store_under(a, v, p, side),
        0 <= i < a.levels@[p].nodes@.len(),
    ensures
        mappable(
            a.levels@[p].pairs_at(i),
            side,
            true,
            a.levels@[v].marginal_counts->0@.len() as int,
        ),
        list_ok(a.levels@, *a.vtree, p, a.levels@[p].pairs_at(i)),
{
    let vt = a.vt();
    assert(vt.node_wf(p));
    assert(refs_ok(a.levels@, vt, p));
    let list = a.levels@[p].pairs_at(i);
    assert(list_ok(a.levels@, vt, p, list));
    assert forall|k: int| 0 <= k < list.len() implies ({
        &&& side_ref(#[trigger] list[k], side) < 0x8000_0000
        &&& marg_ref(side_ref(list[k], side)) matches MargRef::Slot(s) ==> s
            < a.levels@[v].marginal_counts->0@.len()
    }) by {
        assert(pair_ok(a.levels@, vt, p, list[k]));
    }
}

/// A named slot is found under its new name.
pub proof fn lemma_new_slot(
    a: Tdd,
    b: Tdd,
    v: int,
    p: int,
    side: ChildSide,
    table: Seq<u32>,
    i: int,
    k: int,
)
    requires
        a.wf(),
        store_under(a, v, p, side),
        store_packed(a, b, v, p, side, table),
        0 <= i < a.levels@[p].nodes@.len(),
        0 <= k < a.levels@[p].pairs_at(i).len(),
    ensures
        ({
            let raw = side_ref(a.levels@[p].pairs_at(i)[k], side);
            let new = mapped_ref(raw, true, table);
            &&& new < 0x8000_0000
            &&& match marg_ref(raw) {
                MargRef::Slot(s) => {
                    &&& marg_ref(new) == MargRef::Slot(table[s as int])
                    &&& table[s as int] < b.levels@[v].marginal_counts->0@.len()
                    &&& b.levels@[v].slot_count(table[s as int] as int) == a.levels@[v].slot_count(
                        s as int,
                    )
                },
                MargRef::Inline(_) => new == raw,
            }
        }),
{
    let w = a.levels@[v].marginal_counts->0@.len() as int;
    lemma_store_mappable(a, v, p, side, i);
    assert(a.levels@[v].wf());
    let raw = side_ref(a.levels@[p].pairs_at(i)[k], side);
    match marg_ref(raw) {
        MargRef::Slot(s) => {
            assert(named_in(a.levels@[p], side, s as int));
            let used = used_slots(a.levels@[p], side, w);
            assert(used[s as int]);
        },
        MargRef::Inline(_) => {},
    }
}

/// Packing a store keeps the diagram well formed, and its value.
#[verifier::spinoff_prover]
proof fn lemma_packed_refines(
    a: Tdd,
    b: Tdd,
    v: int,
    p: int,
    side: ChildSide,
    table: Seq<u32>,
)
    requires
        a.wf(),
        a.weights_wf(),
        a.output.vtree.0 != v,
        store_under(a, v, p, side),
        store_packed(a, b, v, p, side, table),
    ensures
        refines(a, b, false),
        forall|u: int|
            0 <= u < a.levels@.len() ==> (#[trigger] b.levels@[u]).nodes@.len()
                == a.levels@[u].nodes@.len(),
{
    let vt = a.vt();
    let x = a.levels@;
    let y = b.levels@;
    let w = x[v].marginal_counts->0@.len() as int;
    assert(vt.node_wf(p));
    assert(vt.node_wf(v));
    assert(v != p);
    assert(x[v].wf() && x[p].wf());
    assert(y[v].store_wf());
    assert(y[v].wf()) by {
        x[v].lemma_same_arena(y[v]);
    }
    assert(y[p].wf());
    assert(levels_wf(y, vt)) by {
        assert forall|u: int| 0 <= u < vt.n() implies (#[trigger] y[u]).wf() by {
            assert(x[u].wf());
        }
        assert forall|u: int| 0 <= u < vt.n() implies #[trigger] refs_ok(y, vt, u) by {
            assert(refs_ok(x, vt, u));
            assert(vt.node_wf(u));
            if !vt.leaf_at(u) && !y[u].marginal() {
                let l = vt.left_at(u);
                let r = vt.right_at(u);
                assert(vt.node_wf(l) && vt.node_wf(r));
                assert forall|i: int| 0 <= i < y[u].nodes@.len() implies list_ok(
                    y,
                    vt,
                    u,
                    #[trigger] y[u].pairs_at(i),
                ) by {
                    let list = x[u].pairs_at(i);
                    assert(list_ok(x, vt, u, list));
                    if u == p {
                        let m = mapped_list(list, side, true, table);
                        assert forall|k: int| 0 <= k < m.len() implies pair_ok(
                            y,
                            vt,
                            u,
                            #[trigger] m[k],
                        ) by {
                            assert(pair_ok(x, vt, u, list[k]));
                            assert(m[k] == mapped_pair(list[k], side, true, table));
                            lemma_new_slot(a, b, v, p, side, table, i, k);
                            assert(l == v ==> r != v);
                            if l != v {
                                assert(l != p);
                                assert(y[l] == x[l]);
                            }
                            if r != v {
                                assert(r != p);
                                assert(y[r] == x[r]);
                            }
                        }
                    } else {
                        assert(y[u] == x[u]);
                        assert(l != v && r != v);
                        assert forall|k: int| 0 <= k < list.len() implies pair_ok(
                            y,
                            vt,
                            u,
                            #[trigger] list[k],
                        ) by {
                            assert(pair_ok(x, vt, u, list[k]));
                            if l != p {
                                assert(y[l] == x[l]);
                            }
                            if r != p {
                                assert(y[r] == x[r]);
                            }
                        }
                    }
                }
            }
        }
    }
    let o = a.output.vtree.0 as int;
    assert(eff_width(y, vt, o) == eff_width(x, vt, o)) by {
        if o != p {
            assert(y[o] == x[o]);
        }
    }
    assert(b.wf());
    assert(b.weights_wf()) by {
        assert forall|u: int| 0 <= u < x.len() && (#[trigger] y[u]).weight_marginal implies y[u]
            == x[u] by {
            if u == v {
                assert(x[v].wf());
            }
        }
        if b.weights is None {
            assert forall|u: int| 0 <= u < y.len() implies !(#[trigger] y[u]).weight_marginal by {
                assert(!x[u].weight_marginal);
            }
        } else {
            lemma_weights_at(a, b);
        }
    }
    assert forall|u: int| 0 <= u < x.len() implies (#[trigger] y[u]).marginal() == x[u].marginal()
        && y[u].weight_marginal == x[u].weight_marginal by {}
    lemma_packed_keeps(a, b, v, p, side, table);
    assert(same_frame(a, b));
    if a.unweighted() {
        assert forall|seed: spec_fn(int, int) -> nat| fair(a, seed, false) implies #[trigger] output_val(
            b,
            seed,
        ) == output_val(a, seed) by {
            assert forall|u: int| 0 <= u < vt.n() && u != v && u != p implies same_level(
                #[trigger] x[u],
                y[u],
            ) by {
                assert(y[u] == x[u]);
            }
            assert(differs_at(x, y, vt, v, p));
            let l = vt.left_at(p);
            let r = vt.right_at(p);
            assert(vt.node_wf(l) && vt.node_wf(r));
            if l != v {
                lemma_frame_below(x, y, vt, seed, v, p, l);
                assert(y[l] == x[l]);
            }
            if r != v {
                lemma_frame_below(x, y, vt, seed, v, p, r);
                assert(y[r] == x[r]);
            }
            let sa = sides(x, vt, seed, p);
            let sb = sides(y, vt, seed, p);
            lemma_col_internal(x, vt, seed, p);
            lemma_col_internal(y, vt, seed, p);
            assert forall|i: int| 0 <= i < x[p].nodes@.len() implies psum(
                #[trigger] y[p].pairs_at(i),
                sb,
            ) == psum(x[p].pairs_at(i), sa) by {
                let list = x[p].pairs_at(i);
                lemma_store_mappable(a, v, p, side, i);
                assert forall|k: int| 0 <= k < list.len() implies moves_well(
                    side_ref(#[trigger] list[k], side),
                    true,
                    table,
                    side_vals(sa, side),
                    side_vals(sb, side),
                ) by {
                    lemma_new_slot(a, b, v, p, side, table, i, k);
                }
                lemma_mapped_psum(list, side, table, sa, sb);
            }
            assert(col(y, vt, seed, p) =~= col(x, vt, seed, p));
            lemma_frame(x, y, vt, seed, v, p, o);
        }
    }
}

/// Weights stay in place where no level that has them changes.
proof fn lemma_weights_at(a: Tdd, b: Tdd)
    requires
        a.weights_wf(),
        a.weights is Some,
        b.weights == a.weights,
        b.vtree == a.vtree,
        b.levels@.len() == a.levels@.len(),
        forall|u: int|
            0 <= u < a.levels@.len() && (#[trigger] b.levels@[u]).weight_marginal
                ==> b.levels@[u] == a.levels@[u],
    ensures
        b.weights_wf(),
{
    let ws = a.weights->0;
    assert forall|t: int|
        0 <= t < b.levels@.len() && (#[trigger] b.levels@[t]).weight_marginal implies ws.is_set_spec(
        t,
    ) && ws.vals(t).len() == eff_width(b.levels@, *b.vtree, t) && ws.vals(t).len()
        == b.levels@[t].retired_marg_width by {
        assert(a.levels@[t] == b.levels@[t]);
        assert(a.levels@[t].weight_marginal);
    }
}

/// Keep of the store of level `v` one slot per value that the lists of `p`
/// name. Whether two named slots held the same value comes back.
fn prune_store(tdd: &mut Tdd, v: VtreeIdx, p: VtreeIdx, side: ChildSide) -> (r: bool)
    requires
        old(tdd).wf(),
        old(tdd).weights_wf(),
        old(tdd).output.vtree != v,
        store_under(*old(tdd), v.0 as int, p.0 as int, side),
    ensures
        refines(*old(tdd), *final(tdd), false),
        forall|u: int|
            0 <= u < old(tdd).levels@.len() ==> (#[trigger] final(tdd).levels@[u]).nodes@.len()
                == old(tdd).levels@[u].nodes@.len(),
        exists|table: Seq<u32>| #[trigger]
            store_packed(*old(tdd), *final(tdd), v.0 as int, p.0 as int, side, table) && r == joins(
                used_slots(
                    old(tdd).levels@[p.0 as int],
                    side,
                    old(tdd).levels@[v.0 as int].marginal_counts->0@.len() as int,
                ),
                table,
                old(tdd).levels@[v.0 as int].marginal_counts->0@.len() as int,
            ),
{
    let ghost t0 = *tdd;
    let vi: usize = v.idx();
    let pi: usize = p.idx();
    proof {
        assert(t0.levels@[vi as int].wf());
        assert(t0.levels@[pi as int].wf());
        assert(t0.vtree.node_wf(pi as int));
        assert forall|i: int| 0 <= i < t0.levels@[pi as int].nodes@.len() implies mappable(
            #[trigger] t0.levels@[pi as int].pairs_at(i),
            side,
            true,
            t0.levels@[vi as int].marginal_counts->0@.len() as int,
        ) by {
            lemma_store_mappable(t0, vi as int, pi as int, side, i);
        }
    }
    let w: usize = tdd.levels[vi].width();
    let used = mark_used(&tdd.levels[pi], side, w);
    let (out, table, joined) = pack_store(&tdd.levels[vi], &used);
    let ghost packed_out = out;
    map_side_refs(&mut tdd.levels[pi], side, true, &table);
    let (fast, big) = out.into_parts();
    let ghost mid = tdd.levels@[vi as int];
    assert(mid == t0.levels@[vi as int]);
    set_store(&mut tdd.levels[vi], fast, big);
    proof {
        assert(packed(
            t0.levels@[vi as int],
            used@,
            store_vec(tdd.levels@[vi as int]),
            table@,
            w as int,
        )) by {
            let sv = store_vec(tdd.levels@[vi as int]);
            assert(sv.wf());
            assert forall|j: int| sv.at(j) == packed_out.at(j) by {}
        }
        assert forall|u: int|
            0 <= u < t0.levels@.len() && u != vi && u != pi implies #[trigger] tdd.levels@[u]
            == t0.levels@[u] by {}
        assert(store_packed(t0, *tdd, vi as int, pi as int, side, table@));
        lemma_packed_refines(t0, *tdd, vi as int, pi as int, side, table@);
    }
    joined
}

/// Replace the store of a level.
fn set_store(level: &mut TddLevel, fast: Vec<u128>, big: Option<BigSide>)
    ensures
        *final(level) == (TddLevel {
            marginal_counts: Some(fast),
            marginal_counts_big: big,
            ..*old(level)
        }),
{
    level.marginal_counts = Some(fast);
    level.marginal_counts_big = big;
}

/// Level `v` has a store of counts below a summed out level.
pub open spec fn store_buried(tdd: Tdd, v: int) -> bool {
    &&& 0 <= v < tdd.vtree.n()
    &&& !tdd.vtree.leaf_at(v)
    &&& tdd.levels@[v].marginal_counts is Some
    &&& tdd.vtree.parent_at(v) is Some
    &&& tdd.levels@[tdd.vtree.up(v)].marginal()
}

/// Nothing but the store of level `v` differs, and that is empty.
pub open spec fn store_emptied(a: Tdd, b: Tdd, v: int) -> bool {
    &&& b == (Tdd { levels: b.levels, ..a })
    &&& b.levels@.len() == a.levels@.len()
    &&& forall|u: int|
        0 <= u < a.levels@.len() && u != v ==> #[trigger] b.levels@[u] == a.levels@[u]
    &&& b.levels@[v] == (TddLevel {
        marginal_counts: b.levels@[v].marginal_counts,
        marginal_counts_big: None,
        ..a.levels@[v]
    })
    &&& b.levels@[v].marginal_counts is Some
    &&& b.levels@[v].marginal_counts->0@.len() == 0
}

/// No other level reads a buried store.
proof fn lemma_buried_unread(a: Tdd, b: Tdd, v: int, seed: spec_fn(int, int) -> nat, u: int)
    requires
        a.wf(),
        store_buried(a, v),
        store_emptied(a, b, v),
        0 <= u < a.vtree.n(),
        u != v,
    ensures
        col(b.levels@, *a.vtree, seed, u) == col(a.levels@, *a.vtree, seed, u),
    decreases a.vtree.rank_at(u),
{
    let vt = a.vt();
    assert(vt.node_wf(u));
    assert(b.levels@[u] == a.levels@[u]);
    if !vt.leaf_at(u) && !a.levels@[u].marginal() {
        let l = vt.left_at(u);
        let r = vt.right_at(u);
        assert(vt.node_wf(l) && vt.node_wf(r));
        assert(vt.up(l) == u && vt.up(r) == u);
        lemma_buried_unread(a, b, v, seed, l);
        lemma_buried_unread(a, b, v, seed, r);
        assert(b.levels@[l] == a.levels@[l] && b.levels@[r] == a.levels@[r]);
        lemma_col_internal(a.levels@, vt, seed, u);
        lemma_col_internal(b.levels@, vt, seed, u);
    }
    assert(col(b.levels@, vt, seed, u) =~= col(a.levels@, vt, seed, u));
}

/// Emptying a buried store keeps the diagram well formed, and its value.
proof fn lemma_emptied_refines(a: Tdd, b: Tdd, v: int)
    requires
        a.wf(),
        a.weights_wf(),
        a.output.vtree.0 != v,
        store_buried(a, v),
        store_emptied(a, b, v),
    ensures
        refines(a, b, false),
{
    let vt = a.vt();
    let x = a.levels@;
    let y = b.levels@;
    assert(vt.node_wf(v));
    assert(x[v].wf());
    assert(y[v].wf()) by {
        x[v].lemma_same_arena(y[v]);
    }
    assert(levels_wf(y, vt)) by {
        assert forall|u: int| 0 <= u < vt.n() implies (#[trigger] y[u]).wf() by {
            assert(x[u].wf());
        }
        assert forall|u: int| 0 <= u < vt.n() implies #[trigger] refs_ok(y, vt, u) by {
            assert(refs_ok(x, vt, u));
            assert(vt.node_wf(u));
            if !vt.leaf_at(u) && !y[u].marginal() {
                let l = vt.left_at(u);
                let r = vt.right_at(u);
                assert(vt.node_wf(l) && vt.node_wf(r));
                assert(vt.up(l) == u && vt.up(r) == u);
                assert(u != v);
                assert(y[u] == x[u] && y[l] == x[l] && y[r] == x[r]);
                assert forall|i: int| 0 <= i < y[u].nodes@.len() implies list_ok(
                    y,
                    vt,
                    u,
                    #[trigger] y[u].pairs_at(i),
                ) by {
                    let list = x[u].pairs_at(i);
                    assert(list_ok(x, vt, u, list));
                    assert forall|k: int| 0 <= k < list.len() implies pair_ok(
                        y,
                        vt,
                        u,
                        #[trigger] list[k],
                    ) by {
                        assert(pair_ok(x, vt, u, list[k]));
                    }
                }
            }
        }
    }
    let o = a.output.vtree.0 as int;
    assert(y[o] == x[o]);
    assert(b.wf());
    assert(b.weights_wf()) by {
        assert forall|u: int| 0 <= u < x.len() && (#[trigger] y[u]).weight_marginal implies y[u]
            == x[u] by {}
        if b.weights is None {
            assert forall|u: int| 0 <= u < y.len() implies !(#[trigger] y[u]).weight_marginal by {
                assert(!x[u].weight_marginal);
            }
        } else {
            lemma_weights_at(a, b);
        }
    }
    assert forall|u: int| 0 <= u < x.len() implies (#[trigger] y[u]).marginal() == x[u].marginal()
        && y[u].weight_marginal == x[u].weight_marginal by {}
    lemma_emptied_keeps(a, b, v);
    assert(same_frame(a, b));
    assert forall|seed: spec_fn(int, int) -> nat| fair(a, seed, false) implies #[trigger] output_val(
        b,
        seed,
    ) == output_val(a, seed) by {
        lemma_buried_unread(a, b, v, seed, o);
    }
}

/// Every slot of the store of level `v` is named by the level above, and no
/// value stands twice; a buried store is empty.
pub open spec fn tidy(tdd: Tdd, v: int) -> bool {
    &&& forall|p: int, side: ChildSide|
        #[trigger] store_under(tdd, v, p, side) ==> store_tidy(
            tdd.levels@[p],
            tdd.levels@[v],
            side,
        )
    &&& store_buried(tdd, v) ==> tdd.levels@[v].marginal_counts->0@.len() == 0
}

/// Every slot of the store is named, and no value stands twice.
pub open spec fn store_tidy(parent: TddLevel, level: TddLevel, side: ChildSide) -> bool {
    let c = store_vec(level);
    &&& forall|j: int| 0 <= j < c.fast@.len() ==> #[trigger] named_in(parent, side, j)
    &&& forall|i: int, j: int|
        0 <= i < j < c.fast@.len() ==> !(#[trigger] c.at(i) == #[trigger] c.at(j) && (c.fast@[i]
            == STREAM_OVERFLOW) == (c.fast@[j] == STREAM_OVERFLOW))
}

/// A packed store is tidy.
proof fn lemma_packed_tidy(a: Tdd, b: Tdd, v: int, p: int, side: ChildSide, table: Seq<u32>)
    requires
        a.wf(),
        store_under(a, v, p, side),
        store_packed(a, b, v, p, side, table),
    ensures
        store_tidy(b.levels@[p], b.levels@[v], side),
{
    let w = a.levels@[v].marginal_counts->0@.len() as int;
    let used = used_slots(a.levels@[p], side, w);
    let c = store_vec(b.levels@[v]);
    assert(a.levels@[v].wf());
    assert forall|j: int| 0 <= j < c.fast@.len() implies #[trigger] named_in(
        b.levels@[p],
        side,
        j,
    ) by {
        assert(is_name(used, table, w, j));
        let s = choose|s: int| 0 <= s < w && #[trigger] used[s] && table[s] == j;
        let (i, k) = choose|i: int, k: int|
            0 <= i < a.levels@[p].nodes@.len() && 0 <= k < a.levels@[p].pairs_at(i).len()
                && marg_ref(side_ref(#[trigger] a.levels@[p].pairs_at(i)[k], side))
                == MargRef::Slot(s as u32);
        lemma_new_slot(a, b, v, p, side, table, i, k);
        let list = a.levels@[p].pairs_at(i);
        assert(b.levels@[p].pairs_at(i) == mapped_list(list, side, true, table));
        assert(b.levels@[p].pairs_at(i)[k] == mapped_pair(list[k], side, true, table));
        assert(marg_ref(side_ref(b.levels@[p].pairs_at(i)[k], side)) == MargRef::Slot(j as u32));
    }
}

/// Renaming on one side leaves what is named on the other.
proof fn lemma_named_other(
    before: TddLevel,
    after: TddLevel,
    side: ChildSide,
    table: Seq<u32>,
    other: ChildSide,
    s: int,
)
    requires
        mapped_upto(before, after, side, true, table, before.nodes@.len() as int),
        other != side,
    ensures
        named_in(after, other, s) == named_in(before, other, s),
{
    if named_in(before, other, s) {
        let (i, k) = choose|i: int, k: int|
            0 <= i < before.nodes@.len() && 0 <= k < before.pairs_at(i).len() && marg_ref(
                side_ref(#[trigger] before.pairs_at(i)[k], other),
            ) == MargRef::Slot(s as u32);
        assert(after.pairs_at(i) == mapped_list(before.pairs_at(i), side, true, table));
        assert(after.pairs_at(i)[k] == mapped_pair(before.pairs_at(i)[k], side, true, table));
    }
    if named_in(after, other, s) {
        let (i, k) = choose|i: int, k: int|
            0 <= i < after.nodes@.len() && 0 <= k < after.pairs_at(i).len() && marg_ref(
                side_ref(#[trigger] after.pairs_at(i)[k], other),
            ) == MargRef::Slot(s as u32);
        assert(after.pairs_at(i) == mapped_list(before.pairs_at(i), side, true, table));
        assert(after.pairs_at(i)[k] == mapped_pair(before.pairs_at(i)[k], side, true, table));
        assert(marg_ref(side_ref(before.pairs_at(i)[k], other)) == MargRef::Slot(s as u32));
    }
}

/// Two named slots of the store hold the same value.
pub open spec fn value_shared(parent: TddLevel, level: TddLevel, side: ChildSide) -> bool {
    let c = store_vec(level);
    exists|i: int, j: int|
        0 <= i < j < c.fast@.len() && #[trigger] named_in(parent, side, i) && #[trigger] named_in(
            parent,
            side,
            j,
        ) && c.at(i) == c.at(j) && (c.fast@[i] == STREAM_OVERFLOW) == (c.fast@[j]
            == STREAM_OVERFLOW)
}

/// Two named slots of the store of level `v` hold the same value.
pub open spec fn shares(tdd: Tdd, v: int) -> bool {
    exists|p: int, side: ChildSide| #[trigger]
        store_under(tdd, v, p, side) && value_shared(tdd.levels@[p], tdd.levels@[v], side)
}

/// Slots share a new name exactly where they share a value.
proof fn lemma_joins(a: Tdd, b: Tdd, v: int, p: int, side: ChildSide, table: Seq<u32>)
    requires
        a.wf(),
        store_under(a, v, p, side),
        store_packed(a, b, v, p, side, table),
    ensures
        ({
            let w = a.levels@[v].marginal_counts->0@.len() as int;
            joins(used_slots(a.levels@[p], side, w), table, w) == shares(a, v)
        }),
{
    let vt = a.vt();
    let w = a.levels@[v].marginal_counts->0@.len() as int;
    let used = used_slots(a.levels@[p], side, w);
    let c = store_vec(a.levels@[v]);
    let d = store_vec(b.levels@[v]);
    assert(a.levels@[v].wf());
    assert(vt.node_wf(p));
    if joins(used, table, w) {
        let (i, j) = choose|i: int, j: int|
            0 <= i < j < w && #[trigger] used[i] && #[trigger] used[j] && table[i] == table[j];
        assert(named_in(a.levels@[p], side, i) && named_in(a.levels@[p], side, j));
        assert(value_shared(a.levels@[p], a.levels@[v], side));
    }
    if shares(a, v) {
        let (q, sd) = choose|q: int, sd: ChildSide| #[trigger]
            store_under(a, v, q, sd) && value_shared(a.levels@[q], a.levels@[v], sd);
        assert(vt.node_wf(q));
        assert(q == p && sd == side);
        let (i, j) = choose|i: int, j: int|
            0 <= i < j < c.fast@.len() && #[trigger] named_in(a.levels@[p], side, i)
                && #[trigger] named_in(a.levels@[p], side, j) && c.at(i) == c.at(j) && (c.fast@[i]
                == STREAM_OVERFLOW) == (c.fast@[j] == STREAM_OVERFLOW);
        assert(used[i] && used[j]);
        let x = table[i] as int;
        let y = table[j] as int;
        assert(d.at(x) == a.levels@[v].slot_count(i));
        assert(d.at(y) == a.levels@[v].slot_count(j));
        if x < y {
            assert(!(d.at(x) == d.at(y) && (d.fast@[x] == STREAM_OVERFLOW) == (d.fast@[y]
                == STREAM_OVERFLOW)));
        } else if y < x {
            assert(!(d.at(y) == d.at(x) && (d.fast@[y] == STREAM_OVERFLOW) == (d.fast@[x]
                == STREAM_OVERFLOW)));
        }
    }
}

/// Packing one store leaves what the others share.
proof fn lemma_shares_stay(
    a: Tdd,
    b: Tdd,
    v: int,
    p: int,
    side: ChildSide,
    table: Seq<u32>,
    u: int,
)
    requires
        a.wf(),
        same_frame(a, b),
        store_under(a, v, p, side),
        store_packed(a, b, v, p, side, table),
        u != v,
        0 <= u < a.vtree.n(),
    ensures
        shares(b, u) == shares(a, u),
{
    let vt = a.vt();
    assert(vt.node_wf(p));
    assert(vt.node_wf(u));
    assert(vt.node_wf(v));
    assert forall|q: int, sd: ChildSide|
        store_under(b, u, q, sd) == #[trigger] store_under(a, u, q, sd) && (store_under(a, u, q, sd)
            ==> value_shared(b.levels@[q], b.levels@[u], sd) == value_shared(
            a.levels@[q],
            a.levels@[u],
            sd,
        )) by {
        if 0 <= q < vt.n() {
            assert(vt.node_wf(q));
            assert(b.levels@[q].marginal() == a.levels@[q].marginal());
            assert(b.levels@[u].marginal() == a.levels@[u].marginal());
            if u == p {
                assert(!a.levels@[p].marginal());
            } else {
                assert(b.levels@[u] == a.levels@[u]);
                if store_under(a, u, q, sd) {
                    assert(q != v);
                    if q == p {
                        assert(sd != side);
                        assert forall|s: int| #[trigger] named_in(b.levels@[q], sd, s) == named_in(
                            a.levels@[q],
                            sd,
                            s,
                        ) by {
                            lemma_named_other(a.levels@[p], b.levels@[p], side, table, sd, s);
                        }
                        lemma_shared_same(
                            a.levels@[q],
                            b.levels@[q],
                            a.levels@[u],
                            sd,
                        );
                    } else {
                        assert(b.levels@[q] == a.levels@[q]);
                    }
                }
            }
        }
    }
    if shares(a, u) {
        let (q, sd) = choose|q: int, sd: ChildSide| #[trigger]
            store_under(a, u, q, sd) && value_shared(a.levels@[q], a.levels@[u], sd);
        assert(store_under(b, u, q, sd) && value_shared(b.levels@[q], b.levels@[u], sd));
    }
    if shares(b, u) {
        let (q, sd) = choose|q: int, sd: ChildSide| #[trigger]
            store_under(b, u, q, sd) && value_shared(b.levels@[q], b.levels@[u], sd);
        assert(store_under(a, u, q, sd) && value_shared(a.levels@[q], a.levels@[u], sd));
    }
}

proof fn lemma_shared_same(x: TddLevel, y: TddLevel, level: TddLevel, side: ChildSide)
    requires
        forall|s: int| #[trigger] named_in(y, side, s) == named_in(x, side, s),
    ensures
        value_shared(y, level, side) == value_shared(x, level, side),
{
    let c = store_vec(level);
    if value_shared(x, level, side) {
        let (i, j) = choose|i: int, j: int|
            0 <= i < j < c.fast@.len() && #[trigger] named_in(x, side, i) && #[trigger] named_in(
                x,
                side,
                j,
            ) && c.at(i) == c.at(j) && (c.fast@[i] == STREAM_OVERFLOW) == (c.fast@[j]
                == STREAM_OVERFLOW);
        assert(named_in(y, side, i) && named_in(y, side, j));
    }
    if value_shared(y, level, side) {
        let (i, j) = choose|i: int, j: int|
            0 <= i < j < c.fast@.len() && #[trigger] named_in(y, side, i) && #[trigger] named_in(
                y,
                side,
                j,
            ) && c.at(i) == c.at(j) && (c.fast@[i] == STREAM_OVERFLOW) == (c.fast@[j]
                == STREAM_OVERFLOW);
        assert(named_in(x, side, i) && named_in(x, side, j));
    }
}

/// Emptying a buried store leaves what the others share.
proof fn lemma_shares_stay_buried(a: Tdd, b: Tdd, v: int, u: int)
    requires
        a.wf(),
        same_frame(a, b),
        store_buried(a, v),
        store_emptied(a, b, v),
        u != v,
        0 <= u < a.vtree.n(),
    ensures
        shares(b, u) == shares(a, u),
{
    let vt = a.vt();
    assert(vt.node_wf(u));
    assert(b.levels@[u] == a.levels@[u]);
    assert forall|q: int, sd: ChildSide|
        store_under(b, u, q, sd) == #[trigger] store_under(a, u, q, sd) && (store_under(a, u, q, sd)
            ==> b.levels@[q] == a.levels@[q]) by {
        if 0 <= q < vt.n() {
            assert(b.levels@[q].marginal() == a.levels@[q].marginal());
        }
    }
    if shares(a, u) {
        let (q, sd) = choose|q: int, sd: ChildSide| #[trigger]
            store_under(a, u, q, sd) && value_shared(a.levels@[q], a.levels@[u], sd);
        assert(store_under(b, u, q, sd) && value_shared(b.levels@[q], b.levels@[u], sd));
    }
    if shares(b, u) {
        let (q, sd) = choose|q: int, sd: ChildSide| #[trigger]
            store_under(b, u, q, sd) && value_shared(b.levels@[q], b.levels@[u], sd);
        assert(store_under(a, u, q, sd) && value_shared(a.levels@[q], a.levels@[u], sd));
    }
}

/// The levels below `k` in whose stores two named slots hold the same value,
/// ascending.
pub open spec fn sharing_levels(tdd: Tdd, k: int) -> Seq<u32>
    decreases k,
{
    if k <= 0 {
        Seq::empty()
    } else if shares(tdd, k - 1) {
        sharing_levels(tdd, k - 1).push((k - 1) as u32)
    } else {
        sharing_levels(tdd, k - 1)
    }
}

/// The list of the levels where slots share a value holds each such level below
/// `k`, and no other, in order.
pub proof fn law_sharing_levels_are_listed(tdd: Tdd, k: int)
    requires
        0 <= k <= tdd.vtree.n() < u32::MAX,
    ensures
        forall|v: int|
            0 <= v < k ==> (#[trigger] shares(tdd, v) <==> sharing_levels(tdd, k).contains(
                v as u32,
            )),
        forall|i: int| 0 <= i < sharing_levels(tdd, k).len() ==> #[trigger] sharing_levels(tdd, k)[i] < k,
        forall|i: int, j: int|
            0 <= i < j < sharing_levels(tdd, k).len() ==> #[trigger] sharing_levels(tdd, k)[i]
                < #[trigger] sharing_levels(tdd, k)[j],
    decreases k,
{
    if k > 0 {
        law_sharing_levels_are_listed(tdd, k - 1);
        let rest = sharing_levels(tdd, k - 1);
        let all = sharing_levels(tdd, k);
        assert forall|v: int| 0 <= v < k implies (#[trigger] shares(tdd, v) <==> all.contains(
            v as u32,
        )) by {
            if shares(tdd, k - 1) {
                assert(all[all.len() - 1] == (k - 1) as u32);
                if v < k - 1 {
                    if rest.contains(v as u32) {
                        let i = choose|i: int| 0 <= i < rest.len() && rest[i] == v as u32;
                        assert(all[i] == v as u32);
                    }
                    if all.contains(v as u32) {
                        let i = choose|i: int| 0 <= i < all.len() && all[i] == v as u32;
                        assert(rest[i] == v as u32);
                    }
                }
            } else if v == k - 1 {
                if all.contains(v as u32) {
                    let i = choose|i: int| 0 <= i < all.len() && all[i] == v as u32;
                    assert(rest[i] < k - 1);
                }
            }
        }
        if shares(tdd, k - 1) {
            assert forall|i: int, j: int| 0 <= i < j < all.len() implies #[trigger] all[i]
                < #[trigger] all[j] by {
                assert(all[i] == rest[i]);
                if j < rest.len() {
                    assert(all[j] == rest[j]);
                }
            }
            assert forall|i: int| 0 <= i < all.len() implies #[trigger] all[i] < k by {
                if i < rest.len() {
                    assert(all[i] == rest[i]);
                }
            }
        }
    }
}

/// Packing one store leaves the others tidy.
proof fn lemma_tidy_stays(
    a: Tdd,
    b: Tdd,
    v: int,
    p: int,
    side: ChildSide,
    table: Seq<u32>,
    u: int,
)
    requires
        a.wf(),
        same_frame(a, b),
        store_under(a, v, p, side),
        store_packed(a, b, v, p, side, table),
        u != v,
        0 <= u < a.vtree.n(),
        tidy(a, u),
    ensures
        tidy(b, u),
{
    let vt = a.vt();
    assert(vt.node_wf(p));
    assert(vt.node_wf(u));
    assert(vt.node_wf(v));
    assert forall|q: int, sd: ChildSide| #[trigger] store_under(b, u, q, sd) implies store_tidy(
        b.levels@[q],
        b.levels@[u],
        sd,
    ) by {
        assert(vt.node_wf(q));
        assert(u != p) by {
            assert(b.levels@[p].marginal() == a.levels@[p].marginal());
        }
        assert(b.levels@[u] == a.levels@[u]);
        assert(b.levels@[q].marginal() == a.levels@[q].marginal());
        assert(store_under(a, u, q, sd));
        assert(store_tidy(a.levels@[q], a.levels@[u], sd));
        assert(q != v) by {
            assert(a.levels@[v].marginal());
        }
        if q == p {
            assert(sd != side);
            let c = store_vec(b.levels@[u]);
            assert forall|j: int| 0 <= j < c.fast@.len() implies #[trigger] named_in(
                b.levels@[q],
                sd,
                j,
            ) by {
                assert(named_in(a.levels@[q], sd, j));
                lemma_named_other(a.levels@[p], b.levels@[p], side, table, sd, j);
            }
        } else {
            assert(b.levels@[q] == a.levels@[q]);
        }
    }
    if store_buried(b, u) {
        assert(b.levels@[vt.up(u)].marginal() == a.levels@[vt.up(u)].marginal());
        assert(u != p);
        assert(b.levels@[u] == a.levels@[u]);
    }
}

/// Emptying a buried store leaves the others tidy.
proof fn lemma_tidy_stays_buried(a: Tdd, b: Tdd, v: int, u: int)
    requires
        a.wf(),
        same_frame(a, b),
        store_buried(a, v),
        store_emptied(a, b, v),
        u != v,
        0 <= u < a.vtree.n(),
        tidy(a, u),
    ensures
        tidy(b, u),
{
    let vt = a.vt();
    assert(vt.node_wf(u));
    assert(b.levels@[u] == a.levels@[u]);
    assert forall|q: int, sd: ChildSide| #[trigger] store_under(b, u, q, sd) implies store_tidy(
        b.levels@[q],
        b.levels@[u],
        sd,
    ) by {
        assert(b.levels@[q].marginal() == a.levels@[q].marginal());
        assert(q != v);
        assert(b.levels@[q] == a.levels@[q]);
        assert(store_under(a, u, q, sd));
    }
    if store_buried(b, u) {
        assert(b.levels@[vt.up(u)].marginal() == a.levels@[vt.up(u)].marginal());
    }
}

/// What packing the stores found.
pub struct SlotPruneStats {
    /// Levels in whose stores two named slots held the same value.
    pub value_merged_levels: Vec<u32>,
}

/// Level `c` has a store of counts whose slots can be renamed.
pub open spec fn packs(a: Tdd, c: int) -> bool {
    !a.vtree.leaf_at(c) && a.levels@[c].marginal_counts is Some
}

/// The two pairs of level `t` name the same, but for slots of stores of counts.
pub open spec fn same_explicit(a: Tdd, t: int, p: InputPair, q: InputPair) -> bool {
    &&& !packs(a, a.vtree.left_at(t)) ==> q.left == p.left
    &&& !packs(a, a.vtree.right_at(t)) ==> q.right == p.right
}

/// The two lists of level `t` are equally long, and their pairs name the same,
/// but for slots of stores of counts.
pub open spec fn same_but_slots(a: Tdd, t: int, x: Seq<InputPair>, y: Seq<InputPair>) -> bool {
    y.len() == x.len() && forall|k: int|
        0 <= k < x.len() ==> same_explicit(a, t, x[k], #[trigger] y[k])
}

/// Every list of every level is the same but for the slots that it names.
pub open spec fn lists_stay(a: Tdd, b: Tdd) -> bool {
    forall|t: int, i: int|
        0 <= t < a.vtree.n() && !a.vtree.leaf_at(t) && 0 <= i < a.levels@[t].nodes@.len()
            ==> same_but_slots(a, t, a.levels@[t].pairs_at(i), #[trigger] b.levels@[t].pairs_at(i))
}

proof fn lemma_lists_stay_trans(a: Tdd, b: Tdd, c: Tdd)
    requires
        same_frame(a, b),
        a.wf(),
        forall|u: int|
            0 <= u < a.levels@.len() ==> (#[trigger] b.levels@[u]).nodes@.len()
                == a.levels@[u].nodes@.len(),
        lists_stay(a, b),
        lists_stay(b, c),
    ensures
        lists_stay(a, c),
{
    let vt = a.vt();
    assert forall|t: int, i: int|
        0 <= t < vt.n() && !vt.leaf_at(t) && 0 <= i < a.levels@[t].nodes@.len() implies same_but_slots(
        a,
        t,
        a.levels@[t].pairs_at(i),
        #[trigger] c.levels@[t].pairs_at(i),
    ) by {
        assert(vt.node_wf(t));
        let x = a.levels@[t].pairs_at(i);
        let y = b.levels@[t].pairs_at(i);
        let z = c.levels@[t].pairs_at(i);
        assert(b.levels@[t].nodes@.len() == a.levels@[t].nodes@.len());
        assert(same_but_slots(a, t, x, y));
        assert(same_but_slots(b, t, y, z));
        assert(b.levels@[vt.left_at(t)].marginal() == a.levels@[vt.left_at(t)].marginal());
        assert(b.levels@[vt.right_at(t)].marginal() == a.levels@[vt.right_at(t)].marginal());
        assert(a.levels@[vt.left_at(t)].wf() && b.levels@[vt.left_at(t)].wf());
        assert(a.levels@[vt.right_at(t)].wf() && b.levels@[vt.right_at(t)].wf());
        assert forall|k: int| 0 <= k < x.len() implies same_explicit(a, t, x[k], #[trigger] z[k]) by {
            assert(same_explicit(a, t, x[k], y[k]));
            assert(same_explicit(b, t, y[k], z[k]));
        }
    }
}

/// Packing a store renames slots alone.
proof fn lemma_packed_lists(a: Tdd, b: Tdd, v: int, p: int, side: ChildSide, table: Seq<u32>)
    requires
        a.wf(),
        store_under(a, v, p, side),
        store_packed(a, b, v, p, side, table),
    ensures
        lists_stay(a, b),
{
    let vt = a.vt();
    assert(vt.node_wf(p));
    assert forall|t: int, i: int|
        0 <= t < vt.n() && !vt.leaf_at(t) && 0 <= i < a.levels@[t].nodes@.len() implies same_but_slots(
        a,
        t,
        a.levels@[t].pairs_at(i),
        #[trigger] b.levels@[t].pairs_at(i),
    ) by {
        let x = a.levels@[t].pairs_at(i);
        let y = b.levels@[t].pairs_at(i);
        if t == p {
            assert(y == mapped_list(x, side, true, table));
            assert forall|k: int| 0 <= k < x.len() implies same_explicit(
                a,
                t,
                x[k],
                #[trigger] y[k],
            ) by {
                assert(y[k] == mapped_pair(x[k], side, true, table));
            }
        } else if t == v {
            assert(y =~= x);
        } else {
            assert(b.levels@[t] == a.levels@[t]);
        }
    }
}

/// Pack the store of level `v`, or empty it where nothing names it. Whether
/// two named slots held the same value comes back.
fn tidy_store(tdd: &mut Tdd, v: VtreeIdx) -> (r: bool)
    requires
        old(tdd).wf(),
        old(tdd).weights_wf(),
        output_on_top(*old(tdd)),
        v.0 < old(tdd).vtree.n(),
    ensures
        refines(*old(tdd), *final(tdd), false),
        *final(tdd) == (Tdd { levels: final(tdd).levels, ..*old(tdd) }),
        forall|u: int|
            0 <= u < old(tdd).levels@.len() ==> (#[trigger] final(tdd).levels@[u]).nodes@.len()
                == old(tdd).levels@[u].nodes@.len(),
        lists_stay(*old(tdd), *final(tdd)),
        tidy(*final(tdd), v.0 as int),
        forall|u: int|
            0 <= u < old(tdd).vtree.n() && u != v.0 && #[trigger] tidy(*old(tdd), u) ==> tidy(
                *final(tdd),
                u,
            ),
        r == shares(*old(tdd), v.0 as int),
        forall|u: int|
            0 <= u < old(tdd).vtree.n() && u != v.0 ==> #[trigger] shares(*final(tdd), u) == shares(
                *old(tdd),
                u,
            ),
{
    let ghost t0 = *tdd;
    let ghost vt = tdd.vt();
    let vi: usize = v.idx();
    proof {
        assert(vt.node_wf(vi as int));
        lemma_refines_refl(t0, false);
    }
    if tdd.vtree.is_leaf(v) || tdd.levels[vi].marginal_counts.is_none() {
        return false;
    }
    let parent = tdd.vtree.node(v).parent();
    match parent {
        None => {
            proof {
                assert forall|p: int, side: ChildSide| !#[trigger] store_under(t0, vi as int, p, side) by {
                    if store_under(t0, vi as int, p, side) {
                        assert(vt.node_wf(p));
                    }
                }
            }
            false
        },
        Some(p) => {
            let pi: usize = p.idx();
            assert(vt.node_wf(pi as int));
            if tdd.levels[pi].is_marginal() {
                set_store(&mut tdd.levels[vi], Vec::new(), None);
                proof {
                    assert(store_buried(t0, vi as int));
                    assert(store_emptied(t0, *tdd, vi as int));
                    assert(lists_stay(t0, *tdd)) by {
                        assert forall|t: int, i: int|
                            0 <= t < vt.n() && !vt.leaf_at(t) && 0 <= i
                                < t0.levels@[t].nodes@.len() implies same_but_slots(
                            t0,
                            t,
                            t0.levels@[t].pairs_at(i),
                            #[trigger] tdd.levels@[t].pairs_at(i),
                        ) by {
                            if t == vi {
                                assert(tdd.levels@[t].pairs_at(i) =~= t0.levels@[t].pairs_at(i));
                            }
                        }
                    }
                    lemma_emptied_refines(t0, *tdd, vi as int);
                    assert forall|u: int| 0 <= u < vt.n() && u != v.0 && #[trigger] tidy(t0, u) implies tidy(
                        *tdd,
                        u,
                    ) by {
                        lemma_tidy_stays_buried(t0, *tdd, vi as int, u);
                    }
                    assert forall|u: int| 0 <= u < vt.n() && u != v.0 implies #[trigger] shares(
                        *tdd,
                        u,
                    ) == shares(t0, u) by {
                        lemma_shares_stay_buried(t0, *tdd, vi as int, u);
                    }
                    assert forall|q: int, side: ChildSide|
                        !#[trigger] store_under(t0, vi as int, q, side) by {
                        if store_under(t0, vi as int, q, side) {
                            assert(vt.node_wf(q));
                            assert(q == pi);
                        }
                    }
                    assert forall|q: int, side: ChildSide|
                        !#[trigger] store_under(*tdd, vi as int, q, side) by {
                        if store_under(*tdd, vi as int, q, side) {
                            assert(vt.node_wf(q));
                            assert(q == pi);
                            assert(tdd.levels@[pi as int].marginal() == t0.levels@[pi as int].marginal());
                        }
                    }
                }
                false
            } else {
                let (l, _r) = tdd.vtree.children(p);
                let side = if l.0 == v.0 {
                    ChildSide::Left
                } else {
                    ChildSide::Right
                };
                proof {
                    assert(store_under(t0, vi as int, pi as int, side));
                }
                let joined = prune_store(tdd, v, p, side);
                proof {
                    let w = t0.levels@[vi as int].marginal_counts->0@.len() as int;
                    let table = choose|table: Seq<u32>| #[trigger]
                        store_packed(t0, *tdd, vi as int, pi as int, side, table) && joined == joins(
                            used_slots(t0.levels@[pi as int], side, w),
                            table,
                            w,
                        );
                    lemma_packed_tidy(t0, *tdd, vi as int, pi as int, side, table);
                    lemma_packed_lists(t0, *tdd, vi as int, pi as int, side, table);
                    lemma_joins(t0, *tdd, vi as int, pi as int, side, table);
                    assert forall|u: int| 0 <= u < vt.n() && u != v.0 implies #[trigger] shares(
                        *tdd,
                        u,
                    ) == shares(t0, u) by {
                        lemma_shares_stay(t0, *tdd, vi as int, pi as int, side, table, u);
                    }
                    assert forall|q: int, sd: ChildSide| #[trigger] store_under(
                        *tdd,
                        vi as int,
                        q,
                        sd,
                    ) implies store_tidy(tdd.levels@[q], tdd.levels@[vi as int], sd) by {
                        assert(vt.node_wf(q));
                        assert(q == pi && sd == side);
                    }
                    assert(!store_buried(*tdd, vi as int));
                    assert forall|u: int| 0 <= u < vt.n() && u != v.0 && #[trigger] tidy(t0, u) implies tidy(
                        *tdd,
                        u,
                    ) by {
                        lemma_tidy_stays(t0, *tdd, vi as int, pi as int, side, table, u);
                    }
                }
                joined
            }
        },
    }
}

/// Pack the store of every summed out level that the lists above it name, and
/// empty the stores that nothing names.
pub fn prune_marg_slots_checked(tdd: &mut Tdd) -> (r: SlotPruneStats)
    requires
        old(tdd).wf(),
        old(tdd).weights_wf(),
        output_on_top(*old(tdd)),
    ensures
        refines(*old(tdd), *final(tdd), false),
        *final(tdd) == (Tdd { levels: final(tdd).levels, ..*old(tdd) }),
        forall|u: int|
            0 <= u < old(tdd).levels@.len() ==> (#[trigger] final(tdd).levels@[u]).nodes@.len()
                == old(tdd).levels@[u].nodes@.len(),
        lists_stay(*old(tdd), *final(tdd)),
        forall|v: int| 0 <= v < old(tdd).vtree.n() ==> #[trigger] tidy(*final(tdd), v),
        r.value_merged_levels@ == sharing_levels(*old(tdd), old(tdd).vtree.n()),
{
    let ghost t0 = *tdd;
    let n: usize = tdd.vtree.num_nodes();
    let mut value_merged_levels: Vec<u32> = Vec::new();
    let mut v: usize = 0;
    proof {
        lemma_refines_refl(t0, false);
    }
    while v < n
        invariant
            v <= n,
            n == t0.vtree.n(),
            t0 == *old(tdd),
            t0.wf(),
            t0.weights_wf(),
            output_on_top(t0),
            refines(t0, *tdd, false),
            *tdd == (Tdd { levels: tdd.levels, ..t0 }),
            forall|u: int|
                0 <= u < t0.levels@.len() ==> (#[trigger] tdd.levels@[u]).nodes@.len()
                    == t0.levels@[u].nodes@.len(),
            lists_stay(t0, *tdd),
            forall|u: int| 0 <= u < v ==> #[trigger] tidy(*tdd, u),
            forall|u: int| v <= u < n ==> #[trigger] shares(*tdd, u) == shares(t0, u),
            value_merged_levels@ == sharing_levels(t0, v as int),
        decreases n - v,
    {
        let ghost before = *tdd;
        assert(shares(before, v as int) == shares(t0, v as int));
        if tidy_store(tdd, VtreeIdx(v as u32)) {
            value_merged_levels.push(v as u32);
        }
        proof {
            lemma_refines_trans(t0, before, *tdd, false, false, false);
            lemma_lists_stay_trans(t0, before, *tdd);
            assert forall|u: int| 0 <= u < v + 1 implies #[trigger] tidy(*tdd, u) by {
                if u < v {
                    assert(tidy(before, u));
                }
            }
            assert forall|u: int| v + 1 <= u < n implies #[trigger] shares(*tdd, u) == shares(
                t0,
                u,
            ) by {
                assert(shares(before, u) == shares(t0, u));
            }
        }
        v += 1;
    }
    SlotPruneStats { value_merged_levels }
}

} // verus!
