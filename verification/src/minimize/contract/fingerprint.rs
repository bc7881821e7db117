//! Finding twins: nodes that stand in the same contexts of the parent level.
//!
//! A context of a node is a pair of the parent level that holds it: the parent
//! node and the partner in the pair. A sum of context hashes screens the
//! nodes; nodes with equal sums are then compared context by context.

use super::plan::{group_at, group_end, groups_wf, key_leq, keys_equal, lemma_sorted_eq, sort_keys};
use super::scratch::ContractScratch;
use super::twin_value::{sibs, twins};
use super::twins::groups_twins;
use crate::level::{
    get_other_ref, get_side_ref, other_ref, side_ref, ChildSide, InputPair, TddLevel,
};
use crate::limits::{
    apply_in_flight_bytes, carried, denied, note_refused_reserve, try_push, try_resize,
    unaccount_transient_bytes, ApplyError, ApplyLimits,
};
use crate::marg_ref::{marg_ref, MargRef};
use crate::sums::{lemma_total_perm, total};
use crate::tdd::{eff_width, list_ok, pair_ok, refs_ok, Tdd};
use crate::vtree::{Vtree, VtreeIdx};
use vstd::prelude::*;

verus! {

/// A node of the contracted level, and a parent node and partner with it.
pub type Context = (u32, (u32, u32));

/// The slot of the contracted level that a reference stands for. An inline
/// count stands for none.
pub open spec fn target_slot(raw: u32, marg: bool) -> Option<u32> {
    if marg {
        match marg_ref(raw) {
            MargRef::Slot(s) => Some(s),
            MargRef::Inline(_) => None,
        }
    } else {
        Some(raw)
    }
}

/// The contexts in the list of parent node `n`.
pub open spec fn list_contexts(
    list: Seq<InputPair>,
    side: ChildSide,
    marg: bool,
    n: int,
) -> Seq<Context>
    decreases list.len(),
{
    if list.len() == 0 {
        Seq::empty()
    } else {
        let rest = list_contexts(list.drop_last(), side, marg, n);
        match target_slot(side_ref(list.last(), side), marg) {
            Some(t) => rest.push((t, (n as u32, other_ref(list.last(), side)))),
            None => rest,
        }
    }
}

/// The contexts in the lists of the first `k` parent nodes.
pub open spec fn contexts(parent: TddLevel, side: ChildSide, marg: bool, k: int) -> Seq<Context>
    decreases k,
{
    if k <= 0 {
        Seq::empty()
    } else {
        contexts(parent, side, marg, k - 1) + list_contexts(
            parent.pairs_at(k - 1),
            side,
            marg,
            k - 1,
        )
    }
}

/// The contexts of node `i` among `cs`, in order.
pub open spec fn sig(cs: Seq<Context>, i: int) -> Seq<(u32, u32)>
    decreases cs.len(),
{
    if cs.len() == 0 {
        Seq::empty()
    } else if cs.last().0 == i {
        sig(cs.drop_last(), i).push(cs.last().1)
    } else {
        sig(cs.drop_last(), i)
    }
}

/// One more context.
proof fn lemma_sig_push(cs: Seq<Context>, c: Context, i: int)
    ensures
        sig(cs.push(c), i) == if c.0 == i {
            sig(cs, i).push(c.1)
        } else {
            sig(cs, i)
        },
{
    assert(cs.push(c).drop_last() =~= cs);
}

/// Contexts of a concatenation.
pub proof fn lemma_sig_append(a: Seq<Context>, b: Seq<Context>, i: int)
    ensures
        sig(a + b, i) == sig(a, i) + sig(b, i),
    decreases b.len(),
{
    if b.len() == 0 {
        assert(a + b =~= a);
        assert(sig(a, i) + sig(b, i) =~= sig(a, i));
    } else {
        assert((a + b).drop_last() =~= a + b.drop_last());
        lemma_sig_append(a, b.drop_last(), i);
        assert(sig(a + b, i) =~= sig(a, i) + sig(b, i));
    }
}

/// The contexts of a node in one list are its partners there, each with the
/// parent node.
pub proof fn lemma_sig_list(list: Seq<InputPair>, side: ChildSide, n: int, a: int)
    ensures
        sig(list_contexts(list, side, false, n), a) == sibs(list, side, a).map_values(
            |s: u32| (n as u32, s),
        ),
    decreases list.len(),
{
    let f = |s: u32| (n as u32, s);
    if list.len() == 0 {
        assert(sibs(list, side, a).map_values(f) =~= Seq::empty());
    } else {
        let p = list.last();
        lemma_sig_list(list.drop_last(), side, n, a);
        let rest = list_contexts(list.drop_last(), side, false, n);
        lemma_sig_push(rest, (side_ref(p, side), (n as u32, other_ref(p, side))), a);
        let rs = sibs(list.drop_last(), side, a);
        if side_ref(p, side) == a {
            assert(rs.push(other_ref(p, side)).map_values(f) =~= rs.map_values(f).push(
                (n as u32, other_ref(p, side)),
            ));
        }
    }
}

/// How often a value occurs after tagging every element with `n`.
pub proof fn lemma_tagged_count(s: Seq<u32>, n: u32, m: u32, x: u32)
    ensures
        s.map_values(|y: u32| (n, y)).to_multiset().count((m, x)) == if m == n {
            s.to_multiset().count(x)
        } else {
            0
        },
    decreases s.len(),
{
    broadcast use vstd::seq_lib::group_to_multiset_ensures;

    let f = |y: u32| (n, y);
    if s.len() == 0 {
        assert(s.map_values(f) =~= Seq::empty());
    } else {
        lemma_tagged_count(s.drop_last(), n, m, x);
        assert(s =~= s.drop_last().push(s.last()));
        assert(s.map_values(f) =~= s.drop_last().map_values(f).push((n, s.last())));
    }
}

/// A context occurs as often as the partner occurs in the parent's list.
pub proof fn lemma_sig_count(
    parent: TddLevel,
    side: ChildSide,
    k: int,
    a: int,
    n: int,
    x: u32,
)
    requires
        0 <= k <= parent.nodes@.len() <= u32::MAX,
        0 <= n < parent.nodes@.len(),
    ensures
        sig(contexts(parent, side, false, k), a).to_multiset().count((n as u32, x)) == if n < k {
            sibs(parent.pairs_at(n), side, a).to_multiset().count(x)
        } else {
            0
        },
    decreases k,
{
    broadcast use vstd::seq_lib::group_to_multiset_ensures;

    if k > 0 {
        lemma_sig_count(parent, side, k - 1, a, n, x);
        let rest = contexts(parent, side, false, k - 1);
        let more = list_contexts(parent.pairs_at(k - 1), side, false, k - 1);
        lemma_sig_append(rest, more, a);
        lemma_sig_list(parent.pairs_at(k - 1), side, k - 1, a);
        lemma_tagged_count(
            sibs(parent.pairs_at(k - 1), side, a),
            (k - 1) as u32,
            n as u32,
            x,
        );
        vstd::seq_lib::lemma_multiset_commutative(sig(rest, a), sig(more, a));
    }
}

/// Nodes with the same contexts are twins.
pub proof fn lemma_same_contexts(parent: TddLevel, side: ChildSide, a: int, b: int)
    requires
        parent.nodes@.len() <= u32::MAX,
        sig(contexts(parent, side, false, parent.nodes@.len() as int), a).to_multiset() == sig(
            contexts(parent, side, false, parent.nodes@.len() as int),
            b,
        ).to_multiset(),
    ensures
        twins(parent, side, a, b),
{
    let w = parent.nodes@.len() as int;
    assert forall|n: int| 0 <= n < w implies sibs(
        #[trigger] parent.pairs_at(n),
        side,
        a,
    ).to_multiset() == sibs(parent.pairs_at(n), side, b).to_multiset() by {
        let ma = sibs(parent.pairs_at(n), side, a).to_multiset();
        let mb = sibs(parent.pairs_at(n), side, b).to_multiset();
        assert forall|x: u32| #[trigger] ma.count(x) == mb.count(x) by {
            lemma_sig_count(parent, side, w, a, n, x);
            lemma_sig_count(parent, side, w, b, n, x);
        }
        assert(ma =~= mb);
    }
}

/// The bit diffusion behind every fingerprint.
pub open spec fn mix_spec(x: u64) -> u64 {
    let a = (x ^ (x >> 30)).wrapping_mul(0xBF58_476D_1CE4_E5B9u64);
    let b = (a ^ (a >> 27)).wrapping_mul(0x94D0_49BB_1331_11EBu64);
    b ^ (b >> 31)
}

/// The hash of one context.
pub open spec fn context_hash_spec(c: (u32, u32)) -> u64 {
    mix_spec(((c.0 as u64) << 32) | (c.1 as u64))
}

/// The finalizer of SplitMix64.
pub fn mix64(x: u64) -> (r: u64)
    ensures
        r == mix_spec(x),
{
    let a: u64 = (x ^ (x >> 30)).wrapping_mul(0xBF58_476D_1CE4_E5B9u64);
    let b: u64 = (a ^ (a >> 27)).wrapping_mul(0x94D0_49BB_1331_11EBu64);
    b ^ (b >> 31)
}

/// Hash a parent node and a partner.
pub fn context_hash(parent_i: u32, sibling_j: u32) -> (r: u64)
    ensures
        r == context_hash_spec((parent_i, sibling_j)),
{
    mix64(((parent_i as u64) << 32) | (sibling_j as u64))
}

/// The fingerprint of a signature: the sum of its hashes, wrapping.
pub open spec fn fp_of(s: Seq<(u32, u32)>) -> u64
    decreases s.len(),
{
    if s.len() == 0 {
        0
    } else {
        fp_of(s.drop_last()).wrapping_add(context_hash_spec(s.last()))
    }
}

/// A fingerprint is a sum modulo the word size.
proof fn lemma_fp_total(s: Seq<(u32, u32)>)
    ensures
        fp_of(s) as int == total(s, |c: (u32, u32)| context_hash_spec(c) as nat) as int
            % 0x1_0000_0000_0000_0000,
    decreases s.len(),
{
    if s.len() > 0 {
        lemma_fp_total(s.drop_last());
        let f = |c: (u32, u32)| context_hash_spec(c) as nat;
        let t = total(s.drop_last(), f) as int;
        let h = f(s.last()) as int;
        vstd::arithmetic::div_mod::lemma_add_mod_noop_right(h, t, 0x1_0000_0000_0000_0000);
    }
}

/// Equal signatures, in whatever order, have equal fingerprints.
proof fn lemma_fp_same(a: Seq<(u32, u32)>, b: Seq<(u32, u32)>)
    requires
        a.to_multiset() == b.to_multiset(),
    ensures
        fp_of(a) == fp_of(b),
{
    lemma_fp_total(a);
    lemma_fp_total(b);
    lemma_total_perm(a, b, |c: (u32, u32)| context_hash_spec(c) as nat);
}

/// What is left of the contexts of a node of the parent: those in its first
/// `k` pairs, after those of the nodes before it.
spec fn contexts_upto(
    parent: TddLevel,
    side: ChildSide,
    marg: bool,
    n: int,
    k: int,
) -> Seq<Context> {
    contexts(parent, side, marg, n) + list_contexts(
        parent.pairs_at(n).take(k),
        side,
        marg,
        n,
    )
}

/// The next pair's context.
proof fn lemma_contexts_step(parent: TddLevel, side: ChildSide, marg: bool, n: int, k: int)
    requires
        0 <= k < parent.pairs_at(n).len(),
    ensures
        ({
            let p = parent.pairs_at(n)[k];
            let before = contexts_upto(parent, side, marg, n, k);
            contexts_upto(parent, side, marg, n, k + 1) == match target_slot(
                side_ref(p, side),
                marg,
            ) {
                Some(t) => before.push((t, (n as u32, other_ref(p, side)))),
                None => before,
            }
        }),
{
    let list = parent.pairs_at(n);
    let p = list[k];
    assert(list.take(k + 1).drop_last() =~= list.take(k));
    assert(list.take(k + 1).last() == p);
    let a = contexts(parent, side, marg, n);
    let b = list_contexts(list.take(k), side, marg, n);
    match target_slot(side_ref(p, side), marg) {
        Some(t) => {
            let c = (t, (n as u32, other_ref(p, side)));
            assert(a + b.push(c) =~= (a + b).push(c));
        },
        None => {},
    }
}

/// A whole list read.
proof fn lemma_contexts_node(parent: TddLevel, side: ChildSide, marg: bool, n: int)
    requires
        0 <= n,
    ensures
        contexts_upto(parent, side, marg, n, 0) == contexts(parent, side, marg, n),
        contexts_upto(parent, side, marg, n, parent.pairs_at(n).len() as int) == contexts(
            parent,
            side,
            marg,
            n + 1,
        ),
{
    let list = parent.pairs_at(n);
    assert(list.take(0) =~= Seq::empty());
    assert(list.take(list.len() as int) =~= list);
    assert(contexts(parent, side, marg, n) + Seq::<Context>::empty() =~= contexts(
        parent,
        side,
        marg,
        n,
    ));
}

/// Every reference on the side names a node or slot of the contracted level.
pub open spec fn targets_below(
    parent: TddLevel,
    side: ChildSide,
    marg: bool,
    width: int,
) -> bool {
    forall|n: int, k: int|
        0 <= n < parent.nodes@.len() && 0 <= k < parent.pairs_at(n).len() ==> match target_slot(
            side_ref(#[trigger] parent.pairs_at(n)[k], side),
            marg,
        ) {
            Some(t) => t < width,
            None => true,
        } && (marg ==> side_ref(parent.pairs_at(n)[k], side) < 0x8000_0000)
}

/// The slot that a reference stands for.
fn resolve_target(raw: u32, marg: bool) -> (r: Option<u32>)
    requires
        marg ==> raw < 0x8000_0000,
    ensures
        r == target_slot(raw, marg),
{
    if marg {
        match MargRef::from_raw(raw) {
            MargRef::Slot(s) => Some(s),
            MargRef::Inline(_) => None,
        }
    } else {
        Some(raw)
    }
}

/// The context of one pair, where it has one.
fn context_of(p: InputPair, side: ChildSide, marg: bool, n: u32) -> (r: Option<Context>)
    requires
        marg ==> side_ref(p, side) < 0x8000_0000,
    ensures
        r == match target_slot(side_ref(p, side), marg) {
            Some(t) => Some((t, (n, other_ref(p, side)))),
            None => None,
        },
{
    match resolve_target(get_side_ref(p, side), marg) {
        Some(t) => Some((t, (n, get_other_ref(p, side)))),
        None => None,
    }
}

/// Sum the context hashes of every node, and note which nodes have a context.
fn scatter_fingerprints(
    parent: &TddLevel,
    side: ChildSide,
    marg: bool,
    width: usize,
    fingerprints: &mut Vec<u64>,
    referenced: &mut Vec<bool>,
)
    requires
        parent.arena_wf(),
        parent.nodes@.len() <= u32::MAX,
        targets_below(*parent, side, marg, width as int),
        old(fingerprints)@.len() >= width,
        old(referenced)@.len() >= width,
    ensures
        final(fingerprints)@.len() == old(fingerprints)@.len(),
        final(referenced)@.len() == old(referenced)@.len(),
        forall|i: int|
            0 <= i < width ==> #[trigger] final(fingerprints)@[i] == fp_of(
                sig(contexts(*parent, side, marg, parent.nodes@.len() as int), i),
            ),
        forall|i: int|
            0 <= i < width ==> #[trigger] final(referenced)@[i] == (sig(
                contexts(*parent, side, marg, parent.nodes@.len() as int),
                i,
            ).len() > 0),
{
    let mut i: usize = 0;
    while i < width
        invariant
            i <= width,
            width <= fingerprints@.len(),
            width <= referenced@.len(),
            fingerprints@.len() == old(fingerprints)@.len(),
            referenced@.len() == old(referenced)@.len(),
            forall|j: int| 0 <= j < i ==> #[trigger] fingerprints@[j] == 0,
            forall|j: int| 0 <= j < i ==> #[trigger] referenced@[j] == false,
        decreases width - i,
    {
        fingerprints.set(i, 0);
        referenced.set(i, false);
        i += 1;
    }
    let mut n: usize = 0;
    while n < parent.nodes.len()
        invariant
            n <= parent.nodes@.len() <= u32::MAX,
            parent.arena_wf(),
            targets_below(*parent, side, marg, width as int),
            width <= fingerprints@.len(),
            width <= referenced@.len(),
            fingerprints@.len() == old(fingerprints)@.len(),
            referenced@.len() == old(referenced)@.len(),
            forall|j: int|
                0 <= j < width ==> #[trigger] fingerprints@[j] == fp_of(
                    sig(contexts(*parent, side, marg, n as int), j),
                ),
            forall|j: int|
                0 <= j < width ==> #[trigger] referenced@[j] == (sig(
                    contexts(*parent, side, marg, n as int),
                    j,
                ).len() > 0),
        decreases parent.nodes@.len() - n,
    {
        let list = parent.pairs_of_idx(n);
        let mut k: usize = 0;
        proof {
            lemma_contexts_node(*parent, side, marg, n as int);
        }
        while k < list.len()
            invariant
                n < parent.nodes@.len() <= u32::MAX,
                k <= list@.len(),
                list@ == parent.pairs_at(n as int),
                targets_below(*parent, side, marg, width as int),
                width <= fingerprints@.len(),
                width <= referenced@.len(),
                fingerprints@.len() == old(fingerprints)@.len(),
                referenced@.len() == old(referenced)@.len(),
                forall|j: int|
                    0 <= j < width ==> #[trigger] fingerprints@[j] == fp_of(
                        sig(contexts_upto(*parent, side, marg, n as int, k as int), j),
                    ),
                forall|j: int|
                    0 <= j < width ==> #[trigger] referenced@[j] == (sig(
                        contexts_upto(*parent, side, marg, n as int, k as int),
                        j,
                    ).len() > 0),
            decreases list@.len() - k,
        {
            let ghost before = contexts_upto(*parent, side, marg, n as int, k as int);
            proof {
                lemma_contexts_step(*parent, side, marg, n as int, k as int);
                assert(parent.pairs_at(n as int)[k as int] == list@[k as int]);
            }
            match context_of(list[k], side, marg, n as u32) {
                Some(c) => {
                    let t: usize = c.0 as usize;
                    let ghost fp0 = fingerprints@;
                    let ghost rf0 = referenced@;
                    let h: u64 = context_hash(c.1.0, c.1.1);
                    let sum: u64 = fingerprints[t].wrapping_add(h);
                    fingerprints.set(t, sum);
                    referenced.set(t, true);
                    proof {
                        assert forall|j: int| 0 <= j < width implies #[trigger] fingerprints@[j]
                            == fp_of(sig(before.push(c), j)) by {
                            lemma_sig_push(before, c, j);
                            assert(fp0[j] == fp_of(sig(before, j)));
                            if j == t {
                                assert(sig(before, j).push(c.1).drop_last() =~= sig(before, j));
                            }
                        }
                        assert forall|j: int| 0 <= j < width implies #[trigger] referenced@[j]
                            == (sig(before.push(c), j).len() > 0) by {
                            lemma_sig_push(before, c, j);
                            assert(rf0[j] == (sig(before, j).len() > 0));
                        }
                    }
                },
                None => {},
            }
            k += 1;
        }
        n += 1;
    }
}

/// The mark of an empty place.
pub const EMPTY_IDX: u64 = 0xffff_ffff_ffff_ffff;

/// Where the search for `fp` begins.
pub open spec fn home(fp: u64, size: int) -> int {
    (fp & ((size - 1) as u64)) as int
}

/// The place `d` steps on, around the end.
pub open spec fn around(h: int, d: int, size: int) -> int {
    if h + d < size {
        h + d
    } else {
        h + d - size
    }
}

/// How many steps lead from `h` to `p`.
pub open spec fn steps(h: int, p: int, size: int) -> int {
    if p >= h {
        p - h
    } else {
        p - h + size
    }
}

/// How many of the first `k` places are taken.
pub open spec fn taken(t: Seq<(u64, u64)>, k: int) -> nat
    decreases k,
{
    if k <= 0 {
        0
    } else {
        taken(t, k - 1) + if t[k - 1].1 != EMPTY_IDX {
            1nat
        } else {
            0nat
        }
    }
}

/// The table's first `size` places hold exactly the entries of `m`, and every
/// place before an entry on its way is taken.
pub open spec fn table_holds(t: Seq<(u64, u64)>, size: int, m: Map<u64, u64>) -> bool {
    &&& 0 < size <= t.len()
    &&& forall|p: int|
        0 <= p < size && (#[trigger] t[p]).1 != EMPTY_IDX ==> m.dom().contains(t[p].0)
            && m[t[p].0] == t[p].1
    &&& forall|f: u64| #[trigger] m.dom().contains(f) ==> placed(t, size, f)
    &&& forall|p: int, d: int|
        #![trigger t[p], around(home(t[p].0, size), d, size)]
        0 <= p < size && t[p].1 != EMPTY_IDX && 0 <= d < steps(
            home(t[p].0, size),
            p,
            size,
        ) ==> t[around(home(t[p].0, size), d, size)].1 != EMPTY_IDX
}

/// An entry for `f` stands in the table.
pub open spec fn placed(t: Seq<(u64, u64)>, size: int, f: u64) -> bool {
    exists|p: int| 0 <= p < size && (#[trigger] t[p]).1 != EMPTY_IDX && t[p].0 == f
}

/// A table with no free place has all places taken.
proof fn lemma_taken_full(t: Seq<(u64, u64)>, k: int)
    requires
        0 <= k <= t.len(),
        forall|p: int| 0 <= p < k ==> (#[trigger] t[p]).1 != EMPTY_IDX,
    ensures
        taken(t, k) == k,
    decreases k,
{
    if k > 0 {
        lemma_taken_full(t, k - 1);
    }
}

/// Filling a free place.
proof fn lemma_taken_fill(t: Seq<(u64, u64)>, p: int, e: (u64, u64), k: int)
    requires
        0 <= p < t.len(),
        0 <= k <= t.len(),
        t[p].1 == EMPTY_IDX,
        e.1 != EMPTY_IDX,
    ensures
        taken(t.update(p, e), k) == taken(t, k) + if p < k {
            1nat
        } else {
            0nat
        },
    decreases k,
{
    if k > 0 {
        lemma_taken_fill(t, p, e, k - 1);
    }
}

/// No place of an empty table is taken.
proof fn lemma_taken_none(t: Seq<(u64, u64)>, k: int)
    requires
        0 <= k <= t.len(),
        forall|p: int| 0 <= p < k ==> (#[trigger] t[p]).1 == EMPTY_IDX,
    ensures
        taken(t, k) == 0,
    decreases k,
{
    if k > 0 {
        lemma_taken_none(t, k - 1);
    }
}

/// Look `fp` up; where it is missing, put it in with `idx`. The entry that was
/// there comes back.
fn probe(
    table: &mut Vec<(u64, u64)>,
    size: usize,
    fp: u64,
    idx: u64,
    Ghost(m): Ghost<Map<u64, u64>>,
) -> (r: Option<u64>)
    requires
        table_holds(old(table)@, size as int, m),
        taken(old(table)@, size as int) < size,
        idx != EMPTY_IDX,
    ensures
        final(table)@.len() == old(table)@.len(),
        match r {
            Some(o) => m.dom().contains(fp) && m[fp] == o && final(table)@ == old(table)@,
            None => {
                &&& !m.dom().contains(fp)
                &&& table_holds(final(table)@, size as int, m.insert(fp, idx))
                &&& taken(final(table)@, size as int) == taken(old(table)@, size as int) + 1
            },
        },
{
    let mask: u64 = (size - 1) as u64;
    let start: u64 = fp & mask;
    assert(start <= mask) by (bit_vector)
        requires
            start == fp & mask,
    ;
    let h: usize = start as usize;
    let mut slot: usize = h;
    let mut d: usize = 0;
    let ghost t = table@;
    let ghost sz = size as int;
    loop
        invariant_except_break
            table@ == t,
            t == old(table)@,
            sz == size,
            table_holds(t, sz, m),
            taken(t, sz) < sz,
            h == home(fp, sz),
            h < size,
            0 <= d < size,
            slot == around(h as int, d as int, sz),
            idx != EMPTY_IDX,
            forall|e: int|
                0 <= e < d ==> (#[trigger] t[around(h as int, e, sz)]).1 != EMPTY_IDX
                    && t[around(h as int, e, sz)].0 != fp,
        ensures
            table@.len() == t.len(),
            !m.dom().contains(fp),
            table_holds(table@, sz, m.insert(fp, idx)),
            taken(table@, sz) == taken(t, sz) + 1,
        decreases size - d,
    {
        let entry = table[slot];
        if entry.1 == EMPTY_IDX {
            table.set(slot, (fp, idx));
            proof {
                lemma_missing(t, sz, m, fp, d as int);
                lemma_filled(t, sz, m, fp, idx, d as int);
                lemma_taken_fill(t, slot as int, (fp, idx), sz);
            }
            break;
        }
        if entry.0 == fp {
            return Some(entry.1);
        }
        proof {
            if d + 1 == size {
                assert forall|p: int| 0 <= p < sz implies (#[trigger] t[p]).1 != EMPTY_IDX by {
                    let e = steps(h as int, p, sz);
                    assert(around(h as int, e, sz) == p);
                    if e == d {
                        assert(p == slot);
                    } else {
                        assert(t[around(h as int, e, sz)].1 != EMPTY_IDX);
                    }
                }
                lemma_taken_full(t, sz);
            }
        }
        slot = if slot + 1 == size {
            0
        } else {
            slot + 1
        };
        d += 1;
    }
    None
}

/// What the search has not met before the first free place is not there.
proof fn lemma_missing(t: Seq<(u64, u64)>, size: int, m: Map<u64, u64>, fp: u64, d: int)
    requires
        table_holds(t, size, m),
        0 <= home(fp, size) < size,
        0 <= d < size,
        t[around(home(fp, size), d, size)].1 == EMPTY_IDX,
        forall|e: int|
            0 <= e < d ==> (#[trigger] t[around(home(fp, size), e, size)]).1 != EMPTY_IDX
                && t[around(home(fp, size), e, size)].0 != fp,
    ensures
        !m.dom().contains(fp),
{
    if m.dom().contains(fp) {
        assert(placed(t, size, fp));
        let p = choose|p: int| 0 <= p < size && (#[trigger] t[p]).1 != EMPTY_IDX && t[p].0 == fp;
        let h = home(fp, size);
        let e = steps(h, p, size);
        assert(around(h, e, size) == p);
        if e < d {
            assert(t[around(h, e, size)].0 != fp);
        } else if e > d {
            assert(t[around(home(t[p].0, size), d, size)].1 != EMPTY_IDX);
        }
    }
}

/// The new entry stands at the end of its way.
proof fn lemma_filled(
    t: Seq<(u64, u64)>,
    size: int,
    m: Map<u64, u64>,
    fp: u64,
    idx: u64,
    d: int,
)
    requires
        table_holds(t, size, m),
        !m.dom().contains(fp),
        idx != EMPTY_IDX,
        0 <= home(fp, size) < size,
        0 <= d < size,
        t[around(home(fp, size), d, size)].1 == EMPTY_IDX,
        forall|e: int|
            0 <= e < d ==> (#[trigger] t[around(home(fp, size), e, size)]).1 != EMPTY_IDX,
    ensures
        table_holds(
            t.update(around(home(fp, size), d, size), (fp, idx)),
            size,
            m.insert(fp, idx),
        ),
{
    let h = home(fp, size);
    let q = around(h, d, size);
    let u = t.update(q, (fp, idx));
    let n = m.insert(fp, idx);
    assert(steps(h, q, size) == d);
    assert forall|p: int| 0 <= p < size && (#[trigger] u[p]).1 != EMPTY_IDX implies n.dom().contains(
        u[p].0,
    ) && n[u[p].0] == u[p].1 by {
        if p != q {
            assert(u[p] == t[p]);
        }
    }
    assert forall|f: u64| #[trigger] n.dom().contains(f) implies placed(u, size, f) by {
        if f == fp {
            assert(u[q].0 == f && u[q].1 != EMPTY_IDX);
        } else {
            assert(m.dom().contains(f));
            assert(placed(t, size, f));
            let p = choose|p: int|
                0 <= p < size && (#[trigger] t[p]).1 != EMPTY_IDX && t[p].0 == f;
            assert(u[p] == t[p]);
        }
    }
    assert forall|p: int, e: int|
        #![trigger u[p], around(home(u[p].0, size), e, size)]
        0 <= p < size && u[p].1 != EMPTY_IDX && 0 <= e < steps(
            home(u[p].0, size),
            p,
            size,
        ) implies u[around(home(u[p].0, size), e, size)].1 != EMPTY_IDX by {
        let a = around(home(u[p].0, size), e, size);
        if p == q {
            assert(t[around(h, e, size)].1 != EMPTY_IDX);
        } else {
            assert(u[p] == t[p]);
            assert(t[around(home(t[p].0, size), e, size)].1 != EMPTY_IDX);
        }
        if a != q && 0 <= a < u.len() {
            assert(u[a] == t[a]);
        }
    }
}

/// The sizes that the table takes: powers of two, from four on.
pub open spec fn table_size_at(e: nat) -> nat
    decreases e,
{
    if e == 0 {
        4
    } else {
        2 * table_size_at((e - 1) as nat)
    }
}

/// The least table that holds `n` entries at three quarters of its places.
pub open spec fn is_table_size(r: int, n: int) -> bool {
    let need = n + (n + 2) / 3;
    &&& exists|e: nat| r == table_size_at(e)
    &&& r >= need
    &&& r == 4 || r < 2 * need
}

/// Size the table for at most `max_occupancy` entries. A size that memory
/// cannot hold is refused.
pub fn twin_table_size(max_occupancy: usize) -> (r: Option<usize>)
    ensures
        match r {
            Some(n) => is_table_size(n as int, max_occupancy as int) && n > max_occupancy,
            None => max_occupancy > usize::MAX / 4,
        },
{
    if max_occupancy > usize::MAX / 4 {
        return None;
    }
    let third: usize = (max_occupancy + 2) / 3;
    let need: usize = max_occupancy + third;
    let mut size: usize = 4;
    let ghost mut e: nat = 0;
    assert(size == table_size_at(0));
    while size < need
        invariant
            size == table_size_at(e),
            need == max_occupancy + (max_occupancy + 2) / 3,
            max_occupancy <= usize::MAX / 4,
            size == 4 || size < 2 * need,
            size >= 4,
        decreases 2 * need - size,
    {
        size = size * 2;
        proof {
            e = e + 1;
        }
    }
    Some(size)
}

/// Nodes that take part: all of them, or those with a context.
pub open spec fn takes_part(referenced: Seq<bool>, skip_empty_sig: bool, i: int) -> bool {
    !skip_empty_sig || referenced[i]
}

/// Another of the first `k` nodes that take part has the fingerprint of `j`.
pub open spec fn shares(
    fps: Seq<u64>,
    referenced: Seq<bool>,
    skip_empty_sig: bool,
    k: int,
    j: int,
) -> bool {
    takes_part(referenced, skip_empty_sig, j) && exists|x: int|
        0 <= x < k && x != j && takes_part(referenced, skip_empty_sig, x) && #[trigger] fps[x]
            == fps[j]
}

/// The table has the first node that takes part for every fingerprint.
spec fn table_firsts(
    m: Map<u64, u64>,
    fps: Seq<u64>,
    referenced: Seq<bool>,
    skip_empty_sig: bool,
    k: int,
) -> bool {
    &&& forall|f: u64| #[trigger]
        m.dom().contains(f) ==> 0 <= m[f] < k && takes_part(
            referenced,
            skip_empty_sig,
            m[f] as int,
        ) && fps[m[f] as int] == f
    &&& forall|j: int|
        0 <= j < k && takes_part(referenced, skip_empty_sig, j) ==> m.dom().contains(
            #[trigger] fps[j],
        ) && m[fps[j]] <= j
}

/// Empty the table's first `size` places.
fn clear_table(table: &mut Vec<(u64, u64)>, size: usize)
    requires
        0 < size <= old(table)@.len(),
    ensures
        final(table)@.len() == old(table)@.len(),
        table_holds(final(table)@, size as int, Map::<u64, u64>::empty()),
        taken(final(table)@, size as int) == 0,
{
    let mut p: usize = 0;
    while p < size
        invariant
            p <= size <= table@.len(),
            table@.len() == old(table)@.len(),
            forall|q: int| 0 <= q < p ==> (#[trigger] table@[q]).1 == EMPTY_IDX,
        decreases size - p,
    {
        table.set(p, (0, EMPTY_IDX));
        p += 1;
    }
    proof {
        lemma_taken_none(table@, size as int);
    }
}

/// One more node among the first ones.
proof fn lemma_shares_more(
    fps: Seq<u64>,
    referenced: Seq<bool>,
    skip: bool,
    i: int,
    j: int,
)
    requires
        0 <= i,
    ensures
        shares(fps, referenced, skip, i + 1, j) <==> shares(fps, referenced, skip, i, j) || (
        takes_part(referenced, skip, j) && takes_part(referenced, skip, i) && i != j && fps[i]
            == fps[j]),
{
    if shares(fps, referenced, skip, i, j) {
        let x = choose|x: int|
            0 <= x < i && x != j && takes_part(referenced, skip, x) && #[trigger] fps[x] == fps[j];
        assert(fps[x] == fps[j]);
    }
    if takes_part(referenced, skip, j) && takes_part(referenced, skip, i) && i != j && fps[i]
        == fps[j] {
        assert(fps[i] == fps[j]);
    }
}

/// Mark every node whose fingerprint another node shares. Whether any was
/// marked comes back.
pub fn mark_candidates(
    scratch: &mut ContractScratch,
    limits: &mut ApplyLimits,
    width: usize,
    skip_empty_sig: bool,
) -> (r: Result<bool, ApplyError>)
    requires
        width <= old(scratch).fingerprints@.len(),
        skip_empty_sig ==> width <= old(scratch).referenced@.len(),
        width <= u32::MAX,
    ensures
        carried(*old(limits), *final(limits)),
        width <= usize::MAX / 4 && width <= old(scratch).is_candidate@.len() && (forall|n: int|
            #[trigger] is_table_size(n, width as int) ==> n
                <= old(scratch).twin_hash_table@.len()) ==> r is Ok,
        *final(scratch) == (ContractScratch {
            is_candidate: final(scratch).is_candidate,
            twin_hash_table: final(scratch).twin_hash_table,
            ..*old(scratch)
        }),
        match r {
            Ok(found) => {
                &&& final(scratch).is_candidate@.len() >= width
                &&& forall|i: int|
                    0 <= i < width ==> #[trigger] final(scratch).is_candidate@[i] == shares(
                        old(scratch).fingerprints@,
                        old(scratch).referenced@,
                        skip_empty_sig,
                        width as int,
                        i,
                    )
                &&& found <==> exists|i: int|
                    0 <= i < width && #[trigger] final(scratch).is_candidate@[i]
            },
            Err(e) => e == ApplyError::OverBudget && denied(*final(limits)),
        },
{
    match try_resize(limits, &mut scratch.is_candidate, width, false) {
        Ok(()) => {},
        Err(e) => {
            return Err(e);
        },
    }
    let size: usize = match twin_table_size(width) {
        Some(n) => n,
        None => {
            note_refused_reserve(limits, u64::MAX);
            return Err(ApplyError::OverBudget);
        },
    };
    match try_resize(limits, &mut scratch.twin_hash_table, size, (0u64, EMPTY_IDX)) {
        Ok(()) => {},
        Err(e) => {
            return Err(e);
        },
    }
    let ghost fps = scratch.fingerprints@;
    let ghost rf = scratch.referenced@;
    let mut c: usize = 0;
    while c < width
        invariant
            c <= width <= scratch.is_candidate@.len(),
            *scratch == (ContractScratch {
                is_candidate: scratch.is_candidate,
                twin_hash_table: scratch.twin_hash_table,
                ..*old(scratch)
            }),
            size <= scratch.twin_hash_table@.len(),
            forall|j: int| 0 <= j < c ==> !#[trigger] scratch.is_candidate@[j],
        decreases width - c,
    {
        scratch.is_candidate.set(c, false);
        c += 1;
    }
    clear_table(&mut scratch.twin_hash_table, size);
    let mut found = false;
    let ghost mut m = Map::<u64, u64>::empty();
    let mut i: usize = 0;
    while i < width
        invariant
            i <= width <= scratch.is_candidate@.len(),
            width <= u32::MAX,
            width < size <= scratch.twin_hash_table@.len(),
            *scratch == (ContractScratch {
                is_candidate: scratch.is_candidate,
                twin_hash_table: scratch.twin_hash_table,
                ..*old(scratch)
            }),
            fps == old(scratch).fingerprints@,
            rf == old(scratch).referenced@,
            width <= fps.len(),
            skip_empty_sig ==> width <= rf.len(),
            table_holds(scratch.twin_hash_table@, size as int, m),
            taken(scratch.twin_hash_table@, size as int) <= i,
            table_firsts(m, fps, rf, skip_empty_sig, i as int),
            forall|j: int|
                0 <= j < i ==> #[trigger] scratch.is_candidate@[j] == shares(
                    fps,
                    rf,
                    skip_empty_sig,
                    i as int,
                    j,
                ),
            forall|j: int| i <= j < width ==> !#[trigger] scratch.is_candidate@[j],
            found <==> exists|j: int| 0 <= j < width && #[trigger] scratch.is_candidate@[j],
        decreases width - i,
    {
        let ghost c0 = scratch.is_candidate@;
        proof {
            assert forall|j: int| 0 <= j < width implies (shares(
                fps,
                rf,
                skip_empty_sig,
                i + 1,
                j,
            ) <==> #[trigger] shares(fps, rf, skip_empty_sig, i as int, j) || (takes_part(
                rf,
                skip_empty_sig,
                j,
            ) && takes_part(rf, skip_empty_sig, i as int) && i != j && fps[i as int] == fps[j]))
                by {
                lemma_shares_more(fps, rf, skip_empty_sig, i as int, j);
            }
        }
        if skip_empty_sig && !scratch.referenced[i] {
            assert(!shares(fps, rf, skip_empty_sig, i + 1, i as int));
            assert forall|j: int| 0 <= j < i + 1 implies #[trigger] scratch.is_candidate@[j]
                == shares(fps, rf, skip_empty_sig, i + 1, j) by {
                lemma_shares_more(fps, rf, skip_empty_sig, i as int, j);
            }
            i += 1;
            continue;
        }
        let fp: u64 = scratch.fingerprints[i];
        match probe(&mut scratch.twin_hash_table, size, fp, i as u64, Ghost(m)) {
            Some(occ) => {
                let o: usize = occ as usize;
                assert(m.dom().contains(fp));
                scratch.is_candidate.set(i, true);
                scratch.is_candidate.set(o, true);
                found = true;
                assert(scratch.is_candidate@[i as int]);
                proof {
                    assert forall|j: int| 0 <= j < i + 1 implies #[trigger] scratch.is_candidate@[j]
                        == shares(fps, rf, skip_empty_sig, i + 1, j) by {
                        lemma_shares_more(fps, rf, skip_empty_sig, i as int, j);
                        if j < i {
                            assert(c0[j] == shares(fps, rf, skip_empty_sig, i as int, j));
                        }
                        if j == i {
                            assert(fps[o as int] == fps[j]);
                        } else if j != o && takes_part(rf, skip_empty_sig, j) && fps[j] == fp {
                            assert(fps[o as int] == fps[j]);
                        }
                    }
                }
            },
            None => {
                proof {
                    assert forall|j: int| 0 <= j < i + 1 implies #[trigger] scratch.is_candidate@[j]
                        == shares(fps, rf, skip_empty_sig, i + 1, j) by {
                        lemma_shares_more(fps, rf, skip_empty_sig, i as int, j);
                        if j < i && takes_part(rf, skip_empty_sig, j) {
                            assert(m.dom().contains(fps[j]));
                        }
                        if j == i && shares(fps, rf, skip_empty_sig, i + 1, j) {
                            let x = choose|x: int|
                                0 <= x < i + 1 && x != j && takes_part(rf, skip_empty_sig, x)
                                    && #[trigger] fps[x] == fps[j];
                            assert(m.dom().contains(fps[x]));
                        }
                    }
                    let m1 = m.insert(fp, i as u64);
                    assert(table_firsts(m1, fps, rf, skip_empty_sig, i + 1)) by {
                        assert forall|j: int|
                            0 <= j < i + 1 && takes_part(rf, skip_empty_sig, j) implies m1.dom().contains(
                            #[trigger] fps[j],
                        ) && m1[fps[j]] <= j by {
                            if j < i {
                                assert(m.dom().contains(fps[j]));
                            }
                        }
                    }
                    m = m1;
                }
            },
        }
        i += 1;
    }
    Ok(found)
}

/// Give every unused place of the level a fingerprint of its own, so that two
/// of them do not meet on zero.
pub fn neutralize_tombstone_fingerprints(
    level: &TddLevel,
    width: usize,
    fingerprints: &mut Vec<u64>,
)
    requires
        level.n_tombstones > 0 ==> width <= level.nodes@.len(),
        width <= old(fingerprints)@.len(),
        width <= u32::MAX,
    ensures
        final(fingerprints)@.len() == old(fingerprints)@.len(),
        forall|i: int|
            0 <= i < width ==> #[trigger] final(fingerprints)@[i] == if level.n_tombstones > 0
                && level.nodes@[i] is Tombstone {
                context_hash_spec((0xffff_ffffu32, i as u32))
            } else {
                old(fingerprints)@[i]
            },
{
    if level.n_tombstones == 0 {
        return;
    }
    let mut i: usize = 0;
    while i < width
        invariant
            i <= width <= fingerprints@.len(),
            width <= u32::MAX,
            width <= level.nodes@.len(),
            level.n_tombstones > 0,
            fingerprints@.len() == old(fingerprints)@.len(),
            forall|j: int|
                0 <= j < i ==> #[trigger] fingerprints@[j] == if level.nodes@[j] is Tombstone {
                    context_hash_spec((0xffff_ffffu32, j as u32))
                } else {
                    old(fingerprints)@[j]
                },
            forall|j: int|
                i <= j < width ==> #[trigger] fingerprints@[j] == old(fingerprints)@[j],
        decreases width - i,
    {
        if level.nodes[i].is_tombstone() {
            let h: u64 = context_hash(0xffff_ffff, i as u32);
            fingerprints.set(i, h);
        }
        i += 1;
    }
}

/// The child of `t` on `side`.
pub open spec fn side_child(vt: Vtree, t: int, side: ChildSide) -> int {
    match side {
        ChildSide::Left => vt.left_at(t),
        ChildSide::Right => vt.right_at(t),
    }
}

/// Two nodes have the same contexts.
pub open spec fn same_contexts(cs: Seq<Context>, i: int, j: int) -> bool {
    sig(cs, i).to_multiset() == sig(cs, j).to_multiset()
}

/// Node `r` takes part, and no node before it has its contexts.
pub open spec fn is_first(cs: Seq<Context>, part: Seq<bool>, r: int) -> bool {
    part[r] && forall|j: int| 0 <= j < r && part[j] ==> !#[trigger] same_contexts(cs, j, r)
}

/// The nodes below `k` with the contexts of `r`, ascending, where `r` is the
/// first of them.
pub open spec fn class_upto(cs: Seq<Context>, part: Seq<bool>, r: int, k: int) -> Seq<u32>
    decreases k,
{
    if k <= 0 {
        Seq::empty()
    } else {
        let rest = class_upto(cs, part, r, k - 1);
        if is_first(cs, part, r) && part[k - 1] && k - 1 >= r && same_contexts(cs, r, k - 1) {
            rest.push((k - 1) as u32)
        } else {
            rest
        }
    }
}

/// The classes of two or more nodes whose first node lies below `k`, one after
/// the other.
pub open spec fn flat_classes(cs: Seq<Context>, part: Seq<bool>, w: int, k: int) -> Seq<u32>
    decreases k,
{
    if k <= 0 {
        Seq::empty()
    } else {
        let c = class_upto(cs, part, k - 1, w);
        if c.len() >= 2 {
            flat_classes(cs, part, w, k - 1) + c
        } else {
            flat_classes(cs, part, w, k - 1)
        }
    }
}

/// Where those classes begin.
pub open spec fn class_starts(cs: Seq<Context>, part: Seq<bool>, w: int, k: int) -> Seq<u32>
    decreases k,
{
    if k <= 0 {
        Seq::empty()
    } else if class_upto(cs, part, k - 1, w).len() >= 2 {
        class_starts(cs, part, w, k - 1).push(flat_classes(cs, part, w, k - 1).len() as u32)
    } else {
        class_starts(cs, part, w, k - 1)
    }
}

/// What a class holds.
proof fn lemma_class(cs: Seq<Context>, part: Seq<bool>, r: int, k: int)
    requires
        0 <= k <= u32::MAX,
        0 <= r,
    ensures
        forall|a: int|
            0 <= a < class_upto(cs, part, r, k).len() ==> {
                let x = #[trigger] class_upto(cs, part, r, k)[a] as int;
                &&& r <= x < k
                &&& part[x]
                &&& same_contexts(cs, r, x)
                &&& is_first(cs, part, r)
            },
        forall|a: int, b: int|
            0 <= a < b < class_upto(cs, part, r, k).len() ==> class_upto(cs, part, r, k)[a]
                < class_upto(cs, part, r, k)[b],
        k <= r ==> class_upto(cs, part, r, k).len() == 0,
        k > r && is_first(cs, part, r) ==> class_upto(cs, part, r, k).len() > 0 && class_upto(
            cs,
            part,
            r,
            k,
        )[0] == r,
        !is_first(cs, part, r) ==> class_upto(cs, part, r, k).len() == 0,
    decreases k,
{
    if k > 0 {
        lemma_class(cs, part, r, k - 1);
        let rest = class_upto(cs, part, r, k - 1);
        let c = class_upto(cs, part, r, k);
        assert forall|a: int, b: int| 0 <= a < b < c.len() implies c[a] < c[b] by {
            assert(rest[a] < k - 1);
            if b < rest.len() {
                assert(rest[a] < rest[b]);
            }
        }
        assert forall|a: int| 0 <= a < c.len() implies ({
            let x = #[trigger] c[a] as int;
            r <= x < k && part[x] && same_contexts(cs, r, x) && is_first(cs, part, r)
        }) by {
            if a < rest.len() {
                assert(c[a] == rest[a]);
            }
        }
    }
}

/// The nodes in the classes below `k`: each belongs to one of those classes,
/// and none stands twice.
pub proof fn lemma_flat(cs: Seq<Context>, part: Seq<bool>, w: int, k: int)
    requires
        0 <= k <= w <= u32::MAX,
    ensures
        forall|a: int|
            0 <= a < flat_classes(cs, part, w, k).len() ==> {
                let x = #[trigger] flat_classes(cs, part, w, k)[a] as int;
                &&& 0 <= x < w
                &&& exists|r: int|
                    0 <= r < k && is_first(cs, part, r) && #[trigger] same_contexts(cs, r, x)
            },
        forall|a: int, b: int|
            0 <= a < b < flat_classes(cs, part, w, k).len() ==> flat_classes(cs, part, w, k)[a]
                != flat_classes(cs, part, w, k)[b],
    decreases k,
{
    if k > 0 {
        lemma_flat(cs, part, w, k - 1);
        lemma_class(cs, part, k - 1, w);
        let rest = flat_classes(cs, part, w, k - 1);
        let c = class_upto(cs, part, k - 1, w);
        let f = flat_classes(cs, part, w, k);
        assert forall|a: int| 0 <= a < f.len() implies ({
            let x = #[trigger] f[a] as int;
            0 <= x < w && exists|r: int|
                0 <= r < k && is_first(cs, part, r) && #[trigger] same_contexts(cs, r, x)
        }) by {
            if a < rest.len() {
                assert(f[a] == rest[a]);
            } else {
                assert(f[a] == c[a - rest.len()]);
                assert(same_contexts(cs, k - 1, f[a] as int));
            }
        }
        assert forall|a: int, b: int| 0 <= a < b < f.len() implies f[a] != f[b] by {
            if b < rest.len() {
                assert(rest[a] != rest[b]);
            } else if a >= rest.len() {
                assert(c[a - rest.len()] < c[b - rest.len()]);
            } else {
                assert(f[a] == rest[a]);
                assert(f[b] == c[b - rest.len()]);
                if f[a] == f[b] {
                    let x = f[a] as int;
                    let r = choose|r: int|
                        0 <= r < k - 1 && is_first(cs, part, r) && #[trigger] same_contexts(
                            cs,
                            r,
                            x,
                        );
                    assert(same_contexts(cs, k - 1, x));
                    assert(same_contexts(cs, r, k - 1));
                    assert(is_first(cs, part, k - 1));
                    assert(false);
                }
            }
        }
    }
}

/// Where the classes below `k` begin and end.
pub proof fn lemma_starts(cs: Seq<Context>, part: Seq<bool>, w: int, k: int)
    requires
        0 <= k <= w <= u32::MAX,
        flat_classes(cs, part, w, k).len() <= u32::MAX,
    ensures
        ({
            let f = flat_classes(cs, part, w, k);
            let st = class_starts(cs, part, w, k);
            forall|g: int|
                0 <= g < st.len() ==> {
                    &&& (#[trigger] st[g]) + 2 <= group_end(f, st, g) <= f.len()
                    &&& exists|r: int|
                        0 <= r < k && #[trigger] class_upto(cs, part, r, w) == group_at(f, st, g)
                }
        }),
    decreases k,
{
    if k > 0 {
        let f0 = flat_classes(cs, part, w, k - 1);
        let s0 = class_starts(cs, part, w, k - 1);
        let f = flat_classes(cs, part, w, k);
        let st = class_starts(cs, part, w, k);
        let c = class_upto(cs, part, k - 1, w);
        assert(f0.len() <= f.len());
        lemma_starts(cs, part, w, k - 1);
        assert forall|g: int| 0 <= g < st.len() implies ({
            &&& (#[trigger] st[g]) + 2 <= group_end(f, st, g) <= f.len()
            &&& exists|r: int|
                0 <= r < k && #[trigger] class_upto(cs, part, r, w) == group_at(f, st, g)
        }) by {
            if c.len() >= 2 {
                if g < s0.len() {
                    assert(st[g] == s0[g]);
                    assert(s0[g] + 2 <= group_end(f0, s0, g) <= f0.len());
                    assert(group_end(f, st, g) == group_end(f0, s0, g));
                    let r = choose|r: int|
                        0 <= r < k - 1 && #[trigger] class_upto(cs, part, r, w) == group_at(
                            f0,
                            s0,
                            g,
                        );
                    assert(group_at(f, st, g) =~= group_at(f0, s0, g));
                    assert(class_upto(cs, part, r, w) == group_at(f, st, g));
                } else {
                    assert(group_at(f, st, g) =~= c);
                    assert(class_upto(cs, part, k - 1, w) == group_at(f, st, g));
                }
            } else {
                assert(s0[g] + 2 <= group_end(f0, s0, g) <= f0.len());
                let r = choose|r: int|
                    0 <= r < k - 1 && #[trigger] class_upto(cs, part, r, w) == group_at(
                        f0,
                        s0,
                        g,
                    );
                assert(class_upto(cs, part, r, w) == group_at(f, st, g));
            }
        }
    }
}

/// The classes are groups of twins.
pub proof fn lemma_classes_are_twins(parent: TddLevel, side: ChildSide, part: Seq<bool>, w: int)
    requires
        0 <= w <= u32::MAX,
        parent.nodes@.len() <= u32::MAX,
        ({
            let cs = contexts(parent, side, false, parent.nodes@.len() as int);
            flat_classes(cs, part, w, w).len() <= u32::MAX
        }),
    ensures
        ({
            let cs = contexts(parent, side, false, parent.nodes@.len() as int);
            let f = flat_classes(cs, part, w, w);
            let st = class_starts(cs, part, w, w);
            groups_wf(f, st, w) && groups_twins(parent, side, f, st)
        }),
{
    let cs = contexts(parent, side, false, parent.nodes@.len() as int);
    let f = flat_classes(cs, part, w, w);
    let st = class_starts(cs, part, w, w);
    lemma_flat(cs, part, w, w);
    lemma_starts(cs, part, w, w);
    assert forall|g: int, a: int|
        0 <= g < st.len() && 0 <= a < group_at(f, st, g).len() implies twins(
        parent,
        side,
        group_at(f, st, g)[0] as int,
        #[trigger] group_at(f, st, g)[a] as int,
    ) by {
        assert(st[g] + 2 <= group_end(f, st, g) <= f.len());
        let r = choose|r: int|
            0 <= r < w && #[trigger] class_upto(cs, part, r, w) == group_at(f, st, g);
        let c = class_upto(cs, part, r, w);
        lemma_class(cs, part, r, w);
        assert(same_contexts(cs, r, c[0] as int));
        assert(same_contexts(cs, r, c[a] as int));
        lemma_same_contexts(parent, side, c[0] as int, c[a] as int);
    }
}

/// Which nodes or slots of the level can be twins: places in use, and of
/// slots only those with a context.
pub open spec fn participants(child: TddLevel, cs: Seq<Context>, marg: bool, w: int) -> Seq<bool> {
    Seq::new(
        w as nat,
        |i: int|
            !(child.n_tombstones > 0 && child.nodes@[i] is Tombstone) && (marg ==> sig(
                cs,
                i,
            ).len() > 0),
    )
}

/// Collect the contexts of every candidate.
fn collect_signatures(
    parent: &TddLevel,
    side: ChildSide,
    marg: bool,
    width: usize,
    is_candidate: &Vec<bool>,
    limits: &mut ApplyLimits,
) -> (r: Result<Vec<Vec<(u32, u32)>>, ApplyError>)
    requires
        parent.arena_wf(),
        parent.nodes@.len() <= u32::MAX,
        targets_below(*parent, side, marg, width as int),
        width <= is_candidate@.len(),
    ensures
        carried(*old(limits), *final(limits)),
        match r {
            Ok(v) => {
                &&& v@.len() == width
                &&& forall|i: int|
                    0 <= i < width ==> (#[trigger] v@[i])@ == if is_candidate@[i] {
                        sig(contexts(*parent, side, marg, parent.nodes@.len() as int), i)
                    } else {
                        Seq::empty()
                    }
            },
            Err(e) => e == ApplyError::OverBudget && denied(*final(limits)),
        },
{
    let mut v: Vec<Vec<(u32, u32)>> = Vec::new();
    let mut i: usize = 0;
    while i < width
        invariant
            i <= width,
            v@.len() == i,
            carried(*old(limits), *limits),
            forall|j: int| 0 <= j < i ==> (#[trigger] v@[j])@ == Seq::<(u32, u32)>::empty(),
        decreases width - i,
    {
        match try_push(limits, &mut v, Vec::new()) {
            Ok(()) => {},
            Err(e) => {
                return Err(e);
            },
        }
        i += 1;
    }
    let mut n: usize = 0;
    while n < parent.nodes.len()
        invariant
            n <= parent.nodes@.len() <= u32::MAX,
            parent.arena_wf(),
            targets_below(*parent, side, marg, width as int),
            width <= is_candidate@.len(),
            v@.len() == width,
            carried(*old(limits), *limits),
            forall|j: int|
                0 <= j < width ==> (#[trigger] v@[j])@ == if is_candidate@[j] {
                    sig(contexts(*parent, side, marg, n as int), j)
                } else {
                    Seq::empty()
                },
        decreases parent.nodes@.len() - n,
    {
        let list = parent.pairs_of_idx(n);
        let mut k: usize = 0;
        proof {
            lemma_contexts_node(*parent, side, marg, n as int);
        }
        while k < list.len()
            invariant
                n < parent.nodes@.len() <= u32::MAX,
                k <= list@.len(),
                list@ == parent.pairs_at(n as int),
                targets_below(*parent, side, marg, width as int),
                width <= is_candidate@.len(),
                v@.len() == width,
                carried(*old(limits), *limits),
                forall|j: int|
                    0 <= j < width ==> (#[trigger] v@[j])@ == if is_candidate@[j] {
                        sig(contexts_upto(*parent, side, marg, n as int, k as int), j)
                    } else {
                        Seq::empty()
                    },
            decreases list@.len() - k,
        {
            let ghost before = contexts_upto(*parent, side, marg, n as int, k as int);
            let ghost v0 = v@;
            proof {
                lemma_contexts_step(*parent, side, marg, n as int, k as int);
                assert(parent.pairs_at(n as int)[k as int] == list@[k as int]);
            }
            match context_of(list[k], side, marg, n as u32) {
                Some(c) => {
                    let t: usize = c.0 as usize;
                    if is_candidate[t] {
                        match try_push(limits, &mut v[t], c.1) {
                            Ok(()) => {},
                            Err(e) => {
                                return Err(e);
                            },
                        }
                    }
                    proof {
                        assert forall|j: int| 0 <= j < width implies (#[trigger] v@[j])@
                            == if is_candidate@[j] {
                            sig(before.push(c), j)
                        } else {
                            Seq::empty()
                        } by {
                            lemma_sig_push(before, c, j);
                            assert(v0[j]@ == if is_candidate@[j] {
                                sig(before, j)
                            } else {
                                Seq::empty()
                            });
                        }
                    }
                },
                None => {},
            }
            k += 1;
        }
        n += 1;
    }
    Ok(v)
}

/// Bring every list of contexts into order.
fn sort_signatures(v: &mut Vec<Vec<(u32, u32)>>)
    ensures
        final(v)@.len() == old(v)@.len(),
        forall|i: int|
            0 <= i < old(v)@.len() ==> (#[trigger] final(v)@[i])@.to_multiset()
                == old(v)@[i]@.to_multiset() && vstd::relations::sorted_by(
                final(v)@[i]@,
                |a: (u32, u32), b: (u32, u32)| key_leq(a, b),
            ),
{
    let mut i: usize = 0;
    while i < v.len()
        invariant
            i <= v@.len(),
            v@.len() == old(v)@.len(),
            forall|j: int|
                0 <= j < i ==> (#[trigger] v@[j])@.to_multiset() == old(v)@[j]@.to_multiset()
                    && vstd::relations::sorted_by(
                    v@[j]@,
                    |a: (u32, u32), b: (u32, u32)| key_leq(a, b),
                ),
            forall|j: int| i <= j < v@.len() ==> #[trigger] v@[j] == old(v)@[j],
        decreases v@.len() - i,
    {
        sort_keys(&mut v[i]);
        i += 1;
    }
}

/// Every node that takes part has a first node with its contexts.
pub proof fn lemma_first_exists(cs: Seq<Context>, part: Seq<bool>, k: int) -> (r: int)
    requires
        0 <= k,
        part[k],
    ensures
        0 <= r <= k,
        is_first(cs, part, r),
        same_contexts(cs, r, k),
    decreases k,
{
    if is_first(cs, part, k) {
        k
    } else {
        let j = choose|j: int| 0 <= j < k && part[j] && #[trigger] same_contexts(cs, j, k);
        lemma_first_exists(cs, part, j)
    }
}

/// Nodes that take part and share their contexts are candidates.
proof fn lemma_same_is_candidate(
    cs: Seq<Context>,
    part: Seq<bool>,
    fps: Seq<u64>,
    referenced: Seq<bool>,
    marg: bool,
    w: int,
    a: int,
    b: int,
)
    requires
        0 <= a < w,
        0 <= b < w,
        a != b,
        part[a],
        part[b],
        takes_part(referenced, marg, a),
        takes_part(referenced, marg, b),
        fps[a] == fp_of(sig(cs, a)),
        fps[b] == fp_of(sig(cs, b)),
        same_contexts(cs, a, b),
    ensures
        fps[a] == fps[b],
        shares(fps, referenced, marg, w, a),
        shares(fps, referenced, marg, w, b),
{
    lemma_fp_same(sig(cs, a), sig(cs, b));
    assert(fps[a] == fps[b]);
}

/// What the grouping reads.
pub struct Grouping {
    /// The contexts.
    pub cs: Seq<Context>,
    /// Which nodes take part.
    pub part: Seq<bool>,
    /// Which nodes share their fingerprint.
    pub cand: Seq<bool>,
    /// The fingerprints.
    pub fps: Seq<u64>,
    /// The width of the level.
    pub w: int,
}

impl Grouping {
    /// Candidates are at least those that share their contexts, and these
    /// share their fingerprints too.
    pub open spec fn wf(self) -> bool {
        &&& 0 <= self.w < u32::MAX
        &&& self.part.len() == self.w
        &&& self.cand.len() >= self.w
        &&& self.fps.len() >= self.w
        &&& forall|a: int, b: int|
            0 <= a < self.w && 0 <= b < self.w && a != b && self.part[a] && self.part[b]
                && #[trigger] same_contexts(self.cs, a, b) ==> self.cand[a] && self.cand[b]
                && self.fps[a] == self.fps[b]
    }

    /// The first candidate of its class.
    pub open spec fn rep(self, r: int) -> bool {
        self.cand[r] && is_first(self.cs, self.part, r)
    }

    /// What the table and the links hold after the first `i` nodes.
    pub open spec fn linked(self, m: Map<u64, u64>, next: Seq<u32>, i: int) -> bool {
        &&& next.len() == self.w
        &&& forall|f: u64| #[trigger]
            m.dom().contains(f) ==> 0 <= m[f] < i && self.rep(m[f] as int)
                && self.fps[m[f] as int] == f
        &&& forall|r: int|
            0 <= r < i && #[trigger] self.rep(r) ==> m.dom().contains(self.fps[r])
                && m[self.fps[r]] <= r
        &&& forall|c: int|
            0 <= c < i && #[trigger] self.rep(c) ==> self.link_ok(next, c, i)
    }

    /// The link of `c` leads to the next first candidate with its fingerprint.
    pub open spec fn link_ok(self, next: Seq<u32>, c: int, i: int) -> bool {
        if next[c] == u32::MAX {
            forall|r: int| c < r < i && #[trigger] self.rep(r) ==> self.fps[r] != self.fps[c]
        } else {
            &&& c < next[c] < i
            &&& self.rep(next[c] as int)
            &&& self.fps[next[c] as int] == self.fps[c]
            &&& forall|r: int|
                c < r < next[c] && #[trigger] self.rep(r) ==> self.fps[r] != self.fps[c]
        }
    }

    /// What the members hold after the first `i` nodes.
    pub open spec fn membered(self, members: Seq<Vec<u32>>, i: int) -> bool {
        &&& members.len() == self.w
        &&& forall|r: int|
            0 <= r < self.w ==> (#[trigger] members[r])@ == if self.cand[r] {
                class_upto(self.cs, self.part, r, i)
            } else {
                Seq::empty()
            }
    }

    /// A node that does not take part as a candidate changes no class.
    proof fn lemma_skip(self, members: Seq<Vec<u32>>, i: int)
        requires
            self.wf(),
            self.membered(members, i),
            0 <= i < self.w,
            !(self.cand[i] && self.part[i]),
        ensures
            self.membered(members, i + 1),
    {
        assert forall|r: int| 0 <= r < self.w implies (#[trigger] members[r])@ == if self.cand[r] {
            class_upto(self.cs, self.part, r, i + 1)
        } else {
            Seq::empty()
        } by {
            if self.cand[r] && is_first(self.cs, self.part, r) && self.part[i] && i >= r
                && same_contexts(self.cs, r, i) {
                assert(r != i);
            }
        }
    }

    /// A node goes to the class of its first node, and to no other.
    proof fn lemma_join(self, before: Seq<Vec<u32>>, after: Seq<Vec<u32>>, i: int, c: int)
        requires
            self.wf(),
            self.membered(before, i),
            0 <= c <= i < self.w,
            self.part[i],
            self.rep(c),
            same_contexts(self.cs, c, i),
            after.len() == before.len(),
            after[c]@ == before[c]@.push(i as u32),
            forall|r: int| 0 <= r < self.w && r != c ==> #[trigger] after[r] == before[r],
        ensures
            self.membered(after, i + 1),
    {
        assert forall|r: int| 0 <= r < self.w implies (#[trigger] after[r])@ == if self.cand[r] {
            class_upto(self.cs, self.part, r, i + 1)
        } else {
            Seq::empty()
        } by {
            assert(before[r]@ == if self.cand[r] {
                class_upto(self.cs, self.part, r, i)
            } else {
                Seq::empty()
            });
            if r != c && is_first(self.cs, self.part, r) && i >= r && same_contexts(
                self.cs,
                r,
                i,
            ) {
                assert(same_contexts(self.cs, c, r));
                assert(same_contexts(self.cs, r, c));
                assert(false);
            }
        }
    }

    /// A node that opens a class is linked behind the last one.
    proof fn lemma_new_rep(
        self,
        m: Map<u64, u64>,
        before: Seq<u32>,
        after: Seq<u32>,
        i: int,
        c: int,
    )
        requires
            self.wf(),
            self.linked(m, before, i),
            0 <= c < i < self.w,
            self.rep(i),
            self.rep(c),
            self.fps[c] == self.fps[i],
            before[c] == u32::MAX,
            before[i] == u32::MAX,
            after == before.update(c, i as u32),
        ensures
            self.linked(m, after, i + 1),
    {
        assert forall|x: int| 0 <= x < i + 1 && #[trigger] self.rep(x) implies self.link_ok(
            after,
            x,
            i + 1,
        ) by {
            if x < i {
                assert(self.link_ok(before, x, i));
                if x != c && before[x] == u32::MAX && self.fps[x] == self.fps[i] {
                    assert(self.link_ok(before, c, i));
                    if x < c {
                        assert(self.rep(c));
                    } else {
                        assert(self.rep(x));
                    }
                    assert(false);
                }
            }
        }
        assert forall|r: int| 0 <= r < i + 1 && #[trigger] self.rep(r) implies m.dom().contains(
            self.fps[r],
        ) && m[self.fps[r]] <= r by {
            if r == i {
                assert(self.rep(c));
            }
        }
    }

    /// A node with a new fingerprint opens a class.
    proof fn lemma_new_fp(self, m: Map<u64, u64>, next: Seq<u32>, i: int)
        requires
            self.wf(),
            self.linked(m, next, i),
            0 <= i < self.w,
            self.rep(i),
            !m.dom().contains(self.fps[i]),
            next[i] == u32::MAX,
        ensures
            self.linked(m.insert(self.fps[i], i as u64), next, i + 1),
    {
        let m1 = m.insert(self.fps[i], i as u64);
        assert forall|x: int| 0 <= x < i + 1 && #[trigger] self.rep(x) implies self.link_ok(
            next,
            x,
            i + 1,
        ) by {
            if x < i {
                assert(self.link_ok(next, x, i));
                assert(m.dom().contains(self.fps[x]));
            }
        }
        assert forall|f: u64| #[trigger] m1.dom().contains(f) implies 0 <= m1[f] < i + 1
            && self.rep(m1[f] as int) && self.fps[m1[f] as int] == f by {
            if f != self.fps[i] {
                assert(m.dom().contains(f));
            }
        }
        assert forall|r: int| 0 <= r < i + 1 && #[trigger] self.rep(r) implies m1.dom().contains(
            self.fps[r],
        ) && m1[self.fps[r]] <= r by {
            if r < i {
                assert(m.dom().contains(self.fps[r]));
            }
        }
    }

    /// One more node that opens no class.
    proof fn lemma_no_rep(self, m: Map<u64, u64>, next: Seq<u32>, i: int)
        requires
            self.linked(m, next, i),
            !self.rep(i),
        ensures
            self.linked(m, next, i + 1),
    {
        assert forall|x: int| 0 <= x < i + 1 && #[trigger] self.rep(x) implies self.link_ok(
            next,
            x,
            i + 1,
        ) by {
            assert(self.link_ok(next, x, i));
        }
    }
}

/// Follow the links from `start` to the class of node `i`, or to the last link.
/// The class is there exactly where its node comes back with `true`.
fn walk_links(
    sigs: &Vec<Vec<(u32, u32)>>,
    next: &Vec<u32>,
    start: usize,
    i: usize,
    Ghost(g): Ghost<Grouping>,
    Ghost(m): Ghost<Map<u64, u64>>,
) -> (r: (usize, bool))
    requires
        g.wf(),
        g.linked(m, next@, i as int),
        i < g.w,
        g.cand[i as int],
        g.part[i as int],
        m.dom().contains(g.fps[i as int]),
        m[g.fps[i as int]] == start,
        sigs@.len() == g.w,
        forall|j: int|
            0 <= j < g.w && #[trigger] g.cand[j] ==> sigs@[j]@.to_multiset() == sig(
                g.cs,
                j,
            ).to_multiset() && vstd::relations::sorted_by(
                sigs@[j]@,
                |a: (u32, u32), b: (u32, u32)| key_leq(a, b),
            ),
    ensures
        r.0 < i,
        g.rep(r.0 as int),
        g.fps[r.0 as int] == g.fps[i as int],
        r.1 ==> same_contexts(g.cs, r.0 as int, i as int),
        !r.1 ==> next@[r.0 as int] == u32::MAX && is_first(g.cs, g.part, i as int),
{
    let mut cur: usize = start;
    loop
        invariant
            g.wf(),
            g.linked(m, next@, i as int),
            i < g.w,
            g.cand[i as int],
            g.part[i as int],
            m.dom().contains(g.fps[i as int]),
            m[g.fps[i as int]] == start,
            sigs@.len() == g.w,
            forall|j: int|
                0 <= j < g.w && #[trigger] g.cand[j] ==> sigs@[j]@.to_multiset() == sig(
                    g.cs,
                    j,
                ).to_multiset() && vstd::relations::sorted_by(
                    sigs@[j]@,
                    |a: (u32, u32), b: (u32, u32)| key_leq(a, b),
                ),
            cur < i,
            g.rep(cur as int),
            g.fps[cur as int] == g.fps[i as int],
            forall|r: int|
                0 <= r < cur && #[trigger] g.rep(r) ==> !same_contexts(g.cs, r, i as int),
        decreases i - cur,
    {
        proof {
            assert(g.cand[cur as int] && g.cand[i as int]);
            lemma_sorted_eq(
                sig(g.cs, cur as int),
                sig(g.cs, i as int),
                sigs@[cur as int]@,
                sigs@[i as int]@,
            );
        }
        if keys_equal(&sigs[cur], &sigs[i]) {
            return (cur, true);
        }
        let n: u32 = next[cur];
        assert(g.link_ok(next@, cur as int, i as int));
        if n == u32::MAX {
            proof {
                assert forall|j: int| 0 <= j < i && g.part[j] implies !#[trigger] same_contexts(
                    g.cs,
                    j,
                    i as int,
                ) by {
                    if same_contexts(g.cs, j, i as int) {
                        let r = lemma_first_exists(g.cs, g.part, j);
                        assert(same_contexts(g.cs, r, i as int));
                        assert(g.rep(r));
                        assert(g.fps[r] == g.fps[i as int]);
                        assert(false);
                    }
                }
            }
            return (cur, false);
        }
        proof {
            assert forall|r: int|
                0 <= r < n && #[trigger] g.rep(r) implies !same_contexts(g.cs, r, i as int) by {
                if r > cur && same_contexts(g.cs, r, i as int) {
                    assert(g.fps[r] == g.fps[i as int]);
                }
            }
        }
        cur = n as usize;
    }
}

/// Sort the candidates into classes of equal contexts.
fn assign_members(
    sigs: &Vec<Vec<(u32, u32)>>,
    fingerprints: &Vec<u64>,
    is_candidate: &Vec<bool>,
    part: &Vec<bool>,
    table: &mut Vec<(u64, u64)>,
    size: usize,
    limits: &mut ApplyLimits,
    width: usize,
    Ghost(g): Ghost<Grouping>,
) -> (r: Result<Vec<Vec<u32>>, ApplyError>)
    requires
        g.wf(),
        g.w == width,
        g.part == part@,
        g.cand == is_candidate@,
        g.fps == fingerprints@,
        width < size <= old(table)@.len(),
        sigs@.len() == width,
        forall|j: int|
            0 <= j < g.w && #[trigger] g.cand[j] ==> sigs@[j]@.to_multiset() == sig(
                g.cs,
                j,
            ).to_multiset() && vstd::relations::sorted_by(
                sigs@[j]@,
                |a: (u32, u32), b: (u32, u32)| key_leq(a, b),
            ),
    ensures
        carried(*old(limits), *final(limits)),
        match r {
            Ok(members) => g.membered(members@, width as int),
            Err(e) => e == ApplyError::OverBudget && denied(*final(limits)),
        },
{
    let mut members: Vec<Vec<u32>> = Vec::new();
    let mut next: Vec<u32> = Vec::new();
    let mut k: usize = 0;
    while k < width
        invariant
            k <= width,
            members@.len() == k,
            next@.len() == k,
            carried(*old(limits), *limits),
            forall|j: int| 0 <= j < k ==> (#[trigger] members@[j])@ == Seq::<u32>::empty(),
            forall|j: int| 0 <= j < k ==> #[trigger] next@[j] == u32::MAX,
        decreases width - k,
    {
        match try_push(limits, &mut members, Vec::new()) {
            Ok(()) => {},
            Err(e) => {
                return Err(e);
            },
        }
        match try_push(limits, &mut next, u32::MAX) {
            Ok(()) => {},
            Err(e) => {
                return Err(e);
            },
        }
        k += 1;
    }
    clear_table(table, size);
    let ghost mut m = Map::<u64, u64>::empty();
    let mut i: usize = 0;
    while i < width
        invariant
            i <= width,
            g.wf(),
            g.w == width,
            g.part == part@,
            g.cand == is_candidate@,
            g.fps == fingerprints@,
            width < size <= table@.len(),
            sigs@.len() == width,
            forall|j: int|
                0 <= j < g.w && #[trigger] g.cand[j] ==> sigs@[j]@.to_multiset() == sig(
                    g.cs,
                    j,
                ).to_multiset() && vstd::relations::sorted_by(
                    sigs@[j]@,
                    |a: (u32, u32), b: (u32, u32)| key_leq(a, b),
                ),
            carried(*old(limits), *limits),
            table_holds(table@, size as int, m),
            taken(table@, size as int) <= i,
            g.linked(m, next@, i as int),
            g.membered(members@, i as int),
            forall|j: int| i <= j < width ==> #[trigger] next@[j] == u32::MAX,
        decreases width - i,
    {
        if !is_candidate[i] || !part[i] {
            proof {
                g.lemma_skip(members@, i as int);
                g.lemma_no_rep(m, next@, i as int);
            }
            i += 1;
            continue;
        }
        let fp: u64 = fingerprints[i];
        let ghost mem0 = members@;
        let ghost next0 = next@;
        let mut class: usize = i;
        match probe(table, size, fp, i as u64, Ghost(m)) {
            Some(o) => {
                let (at, known) = walk_links(
                    sigs,
                    &next,
                    o as usize,
                    i,
                    Ghost(g),
                    Ghost(m),
                );
                if known {
                    class = at;
                    proof {
                        assert(same_contexts(g.cs, at as int, i as int));
                        assert(!g.rep(i as int));
                        g.lemma_no_rep(m, next@, i as int);
                    }
                } else {
                    next.set(at, i as u32);
                    proof {
                        g.lemma_new_rep(m, next0, next@, i as int, at as int);
                    }
                }
            },
            None => {
                proof {
                    assert(is_first(g.cs, g.part, i as int)) by {
                        assert forall|j: int|
                            0 <= j < i && g.part[j] implies !#[trigger] same_contexts(
                            g.cs,
                            j,
                            i as int,
                        ) by {
                            if same_contexts(g.cs, j, i as int) {
                                let r = lemma_first_exists(g.cs, g.part, j);
                                assert(same_contexts(g.cs, r, i as int));
                                assert(g.rep(r));
                                assert(false);
                            }
                        }
                    }
                    g.lemma_new_fp(m, next@, i as int);
                    m = m.insert(fp, i as u64);
                }
            },
        }
        match try_push(limits, &mut members[class], i as u32) {
            Ok(()) => {},
            Err(e) => {
                return Err(e);
            },
        }
        proof {
            g.lemma_join(mem0, members@, i as int, class as int);
        }
        i += 1;
    }
    Ok(members)
}

/// Write the classes of two or more nodes out, one after the other.
fn emit_groups(
    members: &Vec<Vec<u32>>,
    flat: &mut Vec<u32>,
    starts: &mut Vec<u32>,
    limits: &mut ApplyLimits,
    Ghost(g): Ghost<Grouping>,
) -> (r: Result<(), ApplyError>)
    requires
        g.wf(),
        g.membered(members@, g.w),
        old(flat)@.len() == 0,
        old(starts)@.len() == 0,
    ensures
        carried(*old(limits), *final(limits)),
        match r {
            Ok(_) => {
                &&& final(flat)@ == flat_classes(g.cs, g.part, g.w, g.w)
                &&& final(starts)@ == class_starts(g.cs, g.part, g.w, g.w)
                &&& final(flat)@.len() <= u32::MAX
            },
            Err(e) => e == ApplyError::OverBudget && denied(*final(limits)),
        },
{
    let mut r: usize = 0;
    while r < members.len()
        invariant
            g.wf(),
            g.membered(members@, g.w),
            r <= members@.len(),
            carried(*old(limits), *limits),
            flat@ == flat_classes(g.cs, g.part, g.w, r as int),
            starts@ == class_starts(g.cs, g.part, g.w, r as int),
            flat@.len() <= u32::MAX,
        decreases members@.len() - r,
    {
        let ghost c = class_upto(g.cs, g.part, r as int, g.w);
        proof {
            lemma_class(g.cs, g.part, r as int, g.w);
            assert(members@[r as int]@ == if g.cand[r as int] {
                c
            } else {
                Seq::empty()
            });
            if !g.cand[r as int] && c.len() >= 2 {
                assert(c[0] == r);
                assert(c[0] < c[1]);
                assert(same_contexts(g.cs, r as int, c[1] as int));
                assert(false);
            }
        }
        let ghost f0 = flat@;
        if members[r].len() >= 2 {
            match try_push(limits, starts, flat.len() as u32) {
                Ok(()) => {},
                Err(e) => {
                    return Err(e);
                },
            }
            let mut k: usize = 0;
            assert(f0 + c.take(0) =~= f0);
            while k < members[r].len()
                invariant
                    r < members@.len(),
                    members@[r as int]@ == c,
                    k <= c.len(),
                    flat@ == f0 + c.take(k as int),
                    carried(*old(limits), *limits),
                decreases c.len() - k,
            {
                match try_push(limits, flat, members[r][k]) {
                    Ok(()) => {},
                    Err(e) => {
                        return Err(e);
                    },
                }
                assert(flat@ =~= f0 + c.take(k + 1));
                k += 1;
            }
            assert(c.take(c.len() as int) =~= c);
            if flat.len() > 0xffff_ffff {
                note_refused_reserve(limits, u64::MAX);
                return Err(ApplyError::OverBudget);
            }
        }
        r += 1;
    }
    Ok(())
}

/// Group the candidates by their contexts.
fn build_twin_groups_after_collision(
    parent: &TddLevel,
    child: &TddLevel,
    side: ChildSide,
    marg: bool,
    width: usize,
    scratch: &mut ContractScratch,
    limits: &mut ApplyLimits,
    Ghost(cs): Ghost<Seq<Context>>,
) -> (r: Result<(), ApplyError>)
    requires
        parent.arena_wf(),
        parent.nodes@.len() <= u32::MAX,
        targets_below(*parent, side, marg, width as int),
        width < u32::MAX,
        child.n_tombstones > 0 ==> width <= child.nodes@.len(),
        cs == contexts(*parent, side, marg, parent.nodes@.len() as int),
        old(scratch).flat_groups@.len() == 0,
        old(scratch).group_starts@.len() == 0,
        width <= old(scratch).fingerprints@.len(),
        width <= old(scratch).referenced@.len(),
        width <= old(scratch).is_candidate@.len(),
        forall|i: int|
            0 <= i < width && !(child.n_tombstones > 0 && child.nodes@[i] is Tombstone)
                ==> #[trigger] old(scratch).fingerprints@[i] == fp_of(sig(cs, i)),
        forall|i: int|
            0 <= i < width ==> #[trigger] old(scratch).referenced@[i] == (sig(cs, i).len() > 0),
        forall|i: int|
            0 <= i < width ==> #[trigger] old(scratch).is_candidate@[i] == shares(
                old(scratch).fingerprints@,
                old(scratch).referenced@,
                marg,
                width as int,
                i,
            ),
    ensures
        carried(*old(limits), *final(limits)),
        *final(scratch) == (ContractScratch {
            flat_groups: final(scratch).flat_groups,
            group_starts: final(scratch).group_starts,
            twin_hash_table: final(scratch).twin_hash_table,
            ..*old(scratch)
        }),
        match r {
            Ok(_) => {
                let part = participants(*child, cs, marg, width as int);
                &&& final(scratch).flat_groups@ == flat_classes(
                    cs,
                    part,
                    width as int,
                    width as int,
                )
                &&& final(scratch).group_starts@ == class_starts(
                    cs,
                    part,
                    width as int,
                    width as int,
                )
                &&& final(scratch).flat_groups@.len() <= u32::MAX
            },
            Err(e) => e == ApplyError::OverBudget && denied(*final(limits)),
        },
{
    let ghost fps = scratch.fingerprints@;
    let ghost rf = scratch.referenced@;
    let ghost w = width as int;
    let before: u64 = apply_in_flight_bytes(limits);
    let mut sigs = match collect_signatures(
        parent,
        side,
        marg,
        width,
        &scratch.is_candidate,
        limits,
    ) {
        Ok(v) => v,
        Err(e) => {
            return Err(e);
        },
    };
    sort_signatures(&mut sigs);
    let mut part: Vec<bool> = Vec::new();
    let mut i: usize = 0;
    while i < width
        invariant
            i <= width,
            part@.len() == i,
            width <= scratch.referenced@.len(),
            *scratch == *old(scratch),
            rf == scratch.referenced@,
            child.n_tombstones > 0 ==> width <= child.nodes@.len(),
            carried(*old(limits), *limits),
            forall|j: int|
                0 <= j < width ==> #[trigger] rf[j] == (sig(cs, j).len() > 0),
            forall|j: int|
                0 <= j < i ==> #[trigger] part@[j] == (!(child.n_tombstones > 0
                    && child.nodes@[j] is Tombstone) && (marg ==> sig(cs, j).len() > 0)),
        decreases width - i,
    {
        let unused = child.n_tombstones > 0 && child.nodes[i].is_tombstone();
        let takes = !unused && (!marg || scratch.referenced[i]);
        assert(rf[i as int] == (sig(cs, i as int).len() > 0));
        match try_push(limits, &mut part, takes) {
            Ok(()) => {},
            Err(e) => {
                return Err(e);
            },
        }
        i += 1;
    }
    let ghost g = Grouping { cs, part: part@, cand: scratch.is_candidate@, fps, w };
    proof {
        assert(part@ =~= participants(*child, cs, marg, w));
        assert(g.wf()) by {
            assert forall|a: int, b: int|
                0 <= a < w && 0 <= b < w && a != b && g.part[a] && g.part[b]
                    && #[trigger] same_contexts(cs, a, b) implies g.cand[a] && g.cand[b]
                && fps[a] == fps[b] by {
                assert(rf[a] == (sig(cs, a).len() > 0));
                assert(rf[b] == (sig(cs, b).len() > 0));
                lemma_same_is_candidate(cs, g.part, fps, rf, marg, w, a, b);
            }
        }
    }
    let size: usize = match twin_table_size(width) {
        Some(n) => n,
        None => {
            note_refused_reserve(limits, u64::MAX);
            return Err(ApplyError::OverBudget);
        },
    };
    match try_resize(limits, &mut scratch.twin_hash_table, size, (0u64, EMPTY_IDX)) {
        Ok(()) => {},
        Err(e) => {
            return Err(e);
        },
    }
    let members = match assign_members(
        &sigs,
        &scratch.fingerprints,
        &scratch.is_candidate,
        &part,
        &mut scratch.twin_hash_table,
        size,
        limits,
        width,
        Ghost(g),
    ) {
        Ok(v) => v,
        Err(e) => {
            return Err(e);
        },
    };
    let after: u64 = apply_in_flight_bytes(limits);
    let emitted = emit_groups(
        &members,
        &mut scratch.flat_groups,
        &mut scratch.group_starts,
        limits,
        Ghost(g),
    );
    if emitted.is_ok() && after > before {
        unaccount_transient_bytes(limits, after - before);
    }
    emitted
}

/// Without a candidate there is no class of two.
proof fn lemma_no_candidates(
    cs: Seq<Context>,
    part: Seq<bool>,
    fps: Seq<u64>,
    referenced: Seq<bool>,
    marg: bool,
    w: int,
    k: int,
)
    requires
        0 <= k <= w <= u32::MAX,
        forall|i: int| 0 <= i < w && #[trigger] part[i] ==> takes_part(referenced, marg, i),
        forall|i: int| 0 <= i < w && #[trigger] part[i] ==> fps[i] == fp_of(sig(cs, i)),
        forall|i: int| 0 <= i < w ==> !#[trigger] shares(fps, referenced, marg, w, i),
    ensures
        flat_classes(cs, part, w, k) == Seq::<u32>::empty(),
        class_starts(cs, part, w, k) == Seq::<u32>::empty(),
    decreases k,
{
    if k > 0 {
        lemma_no_candidates(cs, part, fps, referenced, marg, w, k - 1);
        lemma_class(cs, part, k - 1, w);
        let c = class_upto(cs, part, k - 1, w);
        if c.len() >= 2 {
            assert(c[0] < c[1]);
            let x = c[1] as int;
            assert(part[x] && part[k - 1]);
            lemma_same_is_candidate(cs, part, fps, referenced, marg, w, k - 1, x);
            assert(false);
        }
    }
}

/// Find the groups of twins of the child of `t` on `side`. They are left in
/// `flat_groups` and `group_starts`: the classes of two or more nodes with the
/// same contexts, each ascending, ordered by their first nodes. Whether there
/// is one comes back.
pub fn find_twin_groups(
    tdd: &Tdd,
    limits: &mut ApplyLimits,
    t: VtreeIdx,
    side: ChildSide,
    scratch: &mut ContractScratch,
) -> (r: Result<bool, ApplyError>)
    requires
        tdd.wf(),
        t.0 < tdd.vtree.n(),
        !tdd.vtree.leaf_at(t.0 as int),
        !tdd.levels@[t.0 as int].marginal(),
        ({
            let c = side_child(*tdd.vtree, t.0 as int, side);
            &&& eff_width(tdd.levels@, *tdd.vtree, c) < u32::MAX
            &&& tdd.levels@[c].n_tombstones > 0 ==> eff_width(tdd.levels@, *tdd.vtree, c)
                <= tdd.levels@[c].nodes@.len()
        }),
    ensures
        carried(*old(limits), *final(limits)),
        *final(scratch) == (ContractScratch {
            flat_groups: final(scratch).flat_groups,
            group_starts: final(scratch).group_starts,
            fingerprints: final(scratch).fingerprints,
            referenced: final(scratch).referenced,
            is_candidate: final(scratch).is_candidate,
            twin_hash_table: final(scratch).twin_hash_table,
            ..*old(scratch)
        }),
        eff_width(tdd.levels@, *tdd.vtree, side_child(*tdd.vtree, t.0 as int, side)) == 0 ==> r
            == Ok::<bool, ApplyError>(false),
        match r {
            Ok(found) => {
                let c = side_child(*tdd.vtree, t.0 as int, side);
                let parent = tdd.levels@[t.0 as int];
                let marg = tdd.levels@[c].marginal();
                let w = eff_width(tdd.levels@, *tdd.vtree, c);
                let cs = contexts(parent, side, marg, parent.nodes@.len() as int);
                let part = participants(tdd.levels@[c], cs, marg, w);
                &&& final(scratch).flat_groups@ == flat_classes(cs, part, w, w)
                &&& final(scratch).group_starts@ == class_starts(cs, part, w, w)
                &&& final(scratch).flat_groups@.len() <= u32::MAX
                &&& found == (final(scratch).group_starts@.len() > 0)
            },
            Err(e) => e == ApplyError::OverBudget && denied(*final(limits)),
        },
{
    let ghost vt = tdd.vt();
    let ti: usize = t.0 as usize;
    proof {
        assert(vt.node_wf(ti as int));
        assert(tdd.levels@[ti as int].wf());
        assert(refs_ok(tdd.levels@, vt, ti as int));
    }
    scratch.flat_groups.clear();
    scratch.group_starts.clear();
    let (lc, rc) = tdd.vtree.children(t);
    let child = match side {
        ChildSide::Left => lc,
        ChildSide::Right => rc,
    };
    let ci: usize = child.0 as usize;
    let width: usize = tdd.effective_width(child);
    let marg = tdd.levels[ci].is_marginal();
    let ghost cs = contexts(
        tdd.levels@[ti as int],
        side,
        marg,
        tdd.levels@[ti as int].nodes@.len() as int,
    );
    let ghost w = width as int;
    let ghost part = participants(tdd.levels@[ci as int], cs, marg, w);
    if width == 0 {
        return Ok(false);
    }
    match try_resize(limits, &mut scratch.fingerprints, width, 0u64) {
        Ok(()) => {},
        Err(e) => {
            return Err(e);
        },
    }
    match try_resize(limits, &mut scratch.referenced, width, false) {
        Ok(()) => {},
        Err(e) => {
            return Err(e);
        },
    }
    proof {
        let parent = tdd.levels@[ti as int];
        assert forall|n: int, k: int|
            0 <= n < parent.nodes@.len() && 0 <= k < parent.pairs_at(
                n,
            ).len() implies match target_slot(
            side_ref(#[trigger] parent.pairs_at(n)[k], side),
            marg,
        ) {
            Some(x) => x < w,
            None => true,
        } && (marg ==> side_ref(parent.pairs_at(n)[k], side) < 0x8000_0000) by {
            assert(list_ok(tdd.levels@, vt, ti as int, parent.pairs_at(n)));
            assert(pair_ok(tdd.levels@, vt, ti as int, parent.pairs_at(n)[k]));
        }
    }
    scatter_fingerprints(
        &tdd.levels[ti],
        side,
        marg,
        width,
        &mut scratch.fingerprints,
        &mut scratch.referenced,
    );
    neutralize_tombstone_fingerprints(&tdd.levels[ci], width, &mut scratch.fingerprints);
    let found = match mark_candidates(scratch, limits, width, marg) {
        Ok(f) => f,
        Err(e) => {
            return Err(e);
        },
    };
    if !found {
        proof {
            assert forall|i: int| 0 <= i < w implies !#[trigger] shares(
                scratch.fingerprints@,
                scratch.referenced@,
                marg,
                w,
                i,
            ) by {
                assert(!scratch.is_candidate@[i]);
            }
            assert forall|i: int| 0 <= i < w && #[trigger] part[i] implies takes_part(
                scratch.referenced@,
                marg,
                i,
            ) && scratch.fingerprints@[i] == fp_of(sig(cs, i)) by {
                assert(scratch.referenced@[i] == (sig(cs, i).len() > 0));
            }
            lemma_no_candidates(cs, part, scratch.fingerprints@, scratch.referenced@, marg, w, w);
        }
        return Ok(false);
    }
    match build_twin_groups_after_collision(
        &tdd.levels[ti],
        &tdd.levels[ci],
        side,
        marg,
        width,
        scratch,
        limits,
        Ghost(cs),
    ) {
        Ok(()) => Ok(scratch.group_starts.len() > 0),
        Err(e) => Err(e),
    }
}

} // verus!
