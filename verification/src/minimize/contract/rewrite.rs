//! Rewriting the parent's lists after twins were merged.

use super::commit::{remap, settled};
use crate::level::{
    get_side_ref, set_side_ref, side_ref, with_side_ref, ChildSide, InputPair, TddLevel,
    TddNodeData,
};
use crate::limits::{carried, denied, ApplyError, ApplyLimits};
use vstd::prelude::*;

verus! {

/// Whether a pair stays: it names a survivor or a redirected node.
pub open spec fn stays(p: InputPair, side: ChildSide, target: Seq<u32>, dup: Seq<bool>) -> bool {
    let x = side_ref(p, side) as int;
    target[x] == x || dup[x]
}

/// A pair with the compacted index of the node it names.
pub open spec fn renamed(p: InputPair, side: ChildSide, target: Seq<u32>) -> InputPair {
    with_side_ref(p, side, remap(target, side_ref(p, side) as int) as u32)
}

/// A list after the rewrite: the pairs that stay, renamed, in order.
pub open spec fn rewritten(
    list: Seq<InputPair>,
    side: ChildSide,
    target: Seq<u32>,
    dup: Seq<bool>,
) -> Seq<InputPair>
    decreases list.len(),
{
    if list.len() == 0 {
        Seq::empty()
    } else {
        let rest = rewritten(list.drop_last(), side, target, dup);
        if stays(list.last(), side, target, dup) {
            rest.push(renamed(list.last(), side, target))
        } else {
            rest
        }
    }
}

/// Every reference on `side` is below `w`.
pub open spec fn side_below(list: Seq<InputPair>, side: ChildSide, w: int) -> bool {
    forall|k: int| 0 <= k < list.len() ==> side_ref(#[trigger] list[k], side) < w
}

/// A rewritten list is no longer.
pub proof fn lemma_rewritten_len(
    list: Seq<InputPair>,
    side: ChildSide,
    target: Seq<u32>,
    dup: Seq<bool>,
)
    ensures
        rewritten(list, side, target, dup).len() <= list.len(),
    decreases list.len(),
{
    if list.len() > 0 {
        lemma_rewritten_len(list.drop_last(), side, target, dup);
    }
}

/// Rewrite the list of one node that names an arena range, in place. Returns
/// the new length.
fn rewrite_range(
    level: &mut TddLevel,
    n: usize,
    side: ChildSide,
    merge_target: &Vec<u32>,
    dup_redirect: &Vec<bool>,
    final_remap: &Vec<u32>,
    Ghost(target): Ghost<Seq<u32>>,
    Ghost(dup): Ghost<Seq<bool>>,
) -> (new_len: usize)
    requires
        old(level).arena_wf(),
        n < old(level).nodes@.len(),
        old(level).in_arena(n as int),
        target.len() <= merge_target@.len(),
        dup.len() == target.len(),
        dup.len() <= dup_redirect@.len(),
        target == merge_target@.take(target.len() as int),
        dup == dup_redirect@.take(dup.len() as int),
        final_remap@.len() >= target.len(),
        forall|i: int|
            0 <= i < target.len() ==> #[trigger] final_remap@[i] == remap(target, i),
        side_below(old(level).pairs_at(n as int), side, target.len() as int),
    ensures
        final(level).arena_wf(),
        *final(level) == (TddLevel { pairs: final(level).pairs, ..*old(level) }),
        new_len <= old(level).len_at(n as int),
        final(level).pairs_at(n as int).take(new_len as int) == rewritten(
            old(level).pairs_at(n as int),
            side,
            target,
            dup,
        ),
        forall|j: int|
            0 <= j < old(level).nodes@.len() && j != n ==> #[trigger] final(level).pairs_at(j)
                == old(level).pairs_at(j),
{
    let ghost before = *level;
    let ghost list = before.pairs_at(n as int);
    assert(before.node_wf(n as int));
    let len: usize = level.arena_pairs_at(n);
    let mut write: usize = 0;
    let mut read: usize = 0;
    assert(list.take(0) =~= Seq::<InputPair>::empty());
    assert(level.pairs_at(n as int) =~= rewritten(list.take(0), side, target, dup) + list.skip(0));
    while read < len
        invariant
            before.arena_wf(),
            level.arena_wf(),
            *level == (TddLevel { pairs: level.pairs, ..before }),
            n < before.nodes@.len(),
            before.in_arena(n as int),
            len == before.len_at(n as int),
            list == before.pairs_at(n as int),
            list.len() == len,
            0 <= write <= read <= len,
            write == rewritten(list.take(read as int), side, target, dup).len(),
            level.pairs_at(n as int) == rewritten(list.take(read as int), side, target, dup)
                + list.skip(write as int),
            forall|j: int|
                0 <= j < before.nodes@.len() && j != n ==> #[trigger] level.pairs_at(j)
                    == before.pairs_at(j),
            target.len() <= merge_target@.len(),
            dup.len() == target.len(),
            dup.len() <= dup_redirect@.len(),
            target == merge_target@.take(target.len() as int),
            dup == dup_redirect@.take(dup.len() as int),
            final_remap@.len() >= target.len(),
            forall|i: int|
                0 <= i < target.len() ==> #[trigger] final_remap@[i] == remap(target, i),
            side_below(list, side, target.len() as int),
        decreases len - read,
    {
        let ghost done = rewritten(list.take(read as int), side, target, dup);
        assert(list.take(read + 1).drop_last() =~= list.take(read as int));
        let p = level.pairs_of_idx(n)[read];
        assert(p == list.skip(write as int)[read - write]);
        assert(p == list[read as int]);
        let x: u32 = get_side_ref(p, side);
        assert(target[x as int] == merge_target@[x as int]);
        assert(dup[x as int] == dup_redirect@[x as int]);
        if merge_target[x as usize] == x || dup_redirect[x as usize] {
            let q = set_side_ref(p, side, final_remap[x as usize]);
            let ghost cur = level.pairs_at(n as int);
            level.write_pair(n, write, q);
            assert(level.pairs_at(n as int) =~= done.push(q) + list.skip(write + 1));
            write += 1;
        }
        read += 1;
    }
    assert(list.take(len as int) =~= list);
    assert(level.pairs_at(n as int).take(write as int) =~= rewritten(list, side, target, dup));
    write
}

/// What a rewrite of the first `k` nodes leaves behind.
pub open spec fn rewrote(
    before: TddLevel,
    after: TddLevel,
    side: ChildSide,
    target: Seq<u32>,
    dup: Seq<bool>,
    k: int,
) -> bool {
    &&& after.arena_wf()
    &&& after.nodes@.len() == before.nodes@.len()
    &&& after.same_store(before)
    &&& after.same_flags(before)
    &&& forall|n: int|
        0 <= n < k ==> #[trigger] after.pairs_at(n) == rewritten(
            before.pairs_at(n),
            side,
            target,
            dup,
        )
    &&& forall|n: int|
        k <= n < before.nodes@.len() ==> #[trigger] after.pairs_at(n) == before.pairs_at(n)
            && after.nodes@[n] == before.nodes@[n]
    &&& forall|n: int|
        0 <= n < before.nodes@.len() ==> (#[trigger] after.nodes@[n] is Tombstone
            ==> before.nodes@[n] is Tombstone)
}

/// Rewrite every list of the parent: pairs that name a node merged away go,
/// the others take the compacted index. A node that carries its pair in itself
/// must name a survivor or a redirected node. Fails only where a shortened
/// list needs a side-list entry that the budget refuses; the level is then
/// half rewritten.
#[verifier::spinoff_prover]
pub(crate) fn rewrite_parent(
    level: &mut TddLevel,
    limits: &mut ApplyLimits,
    side: ChildSide,
    merge_target: &Vec<u32>,
    dup_redirect: &Vec<bool>,
    final_remap: &Vec<u32>,
    Ghost(target): Ghost<Seq<u32>>,
    Ghost(dup): Ghost<Seq<bool>>,
) -> (r: Result<(), ApplyError>)
    requires
        old(level).arena_wf(),
        target.len() <= merge_target@.len(),
        dup.len() == target.len(),
        dup.len() <= dup_redirect@.len(),
        target == merge_target@.take(target.len() as int),
        dup == dup_redirect@.take(dup.len() as int),
        settled(target),
        final_remap@.len() >= target.len(),
        forall|i: int|
            0 <= i < target.len() ==> #[trigger] final_remap@[i] == remap(target, i),
        forall|n: int|
            0 <= n < old(level).nodes@.len() ==> side_below(
                #[trigger] old(level).pairs_at(n),
                side,
                target.len() as int,
            ),
        forall|n: int|
            0 <= n < old(level).nodes@.len() && (#[trigger] old(level).nodes@[n]) is Inline
                ==> stays(old(level).nodes@[n]->Inline_0, side, target, dup),
    ensures
        carried(*old(limits), *final(limits)),
        r is Ok ==> rewrote(
            *old(level),
            *final(level),
            side,
            target,
            dup,
            old(level).nodes@.len() as int,
        ),
        r matches Err(e) ==> e == ApplyError::OverBudget && denied(*final(limits))
            && final(level).arena_wf() && final(level).nodes@.len() == old(level).nodes@.len()
            && final(level).same_store(*old(level)) && final(level).same_flags(*old(level)),
{
    let ghost before = *level;
    let count: usize = level.nodes.len();
    let mut dead: usize = 0;
    let mut n: usize = 0;
    while n < count
        invariant
            before == *old(level),
            before.arena_wf(),
            count == before.nodes@.len(),
            0 <= n <= count,
            rewrote(before, *level, side, target, dup, n as int),
            carried(*old(limits), *limits),
            target.len() <= merge_target@.len(),
            dup.len() == target.len(),
            dup.len() <= dup_redirect@.len(),
            target == merge_target@.take(target.len() as int),
            dup == dup_redirect@.take(dup.len() as int),
            settled(target),
            final_remap@.len() >= target.len(),
            forall|i: int|
                0 <= i < target.len() ==> #[trigger] final_remap@[i] == remap(target, i),
            forall|n: int|
                0 <= n < before.nodes@.len() ==> side_below(
                    #[trigger] before.pairs_at(n),
                    side,
                    target.len() as int,
                ),
            forall|n: int|
                0 <= n < before.nodes@.len() && (#[trigger] before.nodes@[n]) is Inline ==> stays(
                    before.nodes@[n]->Inline_0,
                    side,
                    target,
                    dup,
                ),
        decreases count - n,
    {
        let ghost mid = *level;
        let ghost list = before.pairs_at(n as int);
        assert(mid.pairs_at(n as int) == list);
        assert(mid.nodes@[n as int] == before.nodes@[n as int]);
        assert(side_below(list, side, target.len() as int));
        match level.nodes[n] {
            TddNodeData::Inline(p) => {
                assert(list == seq![p]);
                assert(side_ref(list[0], side) < target.len());
                let x: u32 = get_side_ref(p, side);
                let q = set_side_ref(p, side, final_remap[x as usize]);
                level.nodes.set(n, TddNodeData::Inline(q));
                proof {
                    assert(list.drop_last() =~= Seq::<InputPair>::empty());
                    assert(rewritten(list.drop_last(), side, target, dup) =~= Seq::empty());
                    assert(stays(before.nodes@[n as int]->Inline_0, side, target, dup));
                    assert(rewritten(list, side, target, dup) =~= seq![q]);
                    assert(level.pairs_at(n as int) =~= seq![q]);
                    lemma_set_inline(mid, *level, n as int);
                }
            },
            TddNodeData::Multi { .. } | TddNodeData::Extended(_) => {
                let new_len: usize = rewrite_range(
                    level,
                    n,
                    side,
                    merge_target,
                    dup_redirect,
                    final_remap,
                    Ghost(target),
                    Ghost(dup),
                );
                match level.reencode_shrunk_multi(limits, n, new_len) {
                    Ok(d) => {
                        dead = dead.saturating_add(d);
                    },
                    Err(e) => {
                        let ghost broken = *level;
                        level.note_dead_pairs(dead);
                        proof {
                            broken.lemma_same_arena(*level);
                        }
                        return Err(e);
                    },
                }
            },
            TddNodeData::Leaf(_) | TddNodeData::Tombstone => {
                assert(list =~= Seq::<InputPair>::empty());
            },
        }
        proof {
            assert(level.arena_wf());
            assert(level.same_store(before) && level.same_flags(before));
            assert(level.nodes@.len() == before.nodes@.len());
            assert forall|m: int| 0 <= m < n + 1 implies #[trigger] level.pairs_at(m) == rewritten(
                before.pairs_at(m),
                side,
                target,
                dup,
            ) by {
                if m < n {
                    assert(mid.pairs_at(m) == rewritten(before.pairs_at(m), side, target, dup));
                }
            }
            assert forall|m: int| n + 1 <= m < before.nodes@.len() implies #[trigger] level.pairs_at(
                m,
            ) == before.pairs_at(m) && level.nodes@[m] == before.nodes@[m] by {
                assert(mid.pairs_at(m) == before.pairs_at(m));
            }
            assert forall|m: int|
                0 <= m < before.nodes@.len() && #[trigger] level.nodes@[m] is Tombstone implies before.nodes@[m] is Tombstone by {
                assert(mid.nodes@[m] is Tombstone ==> before.nodes@[m] is Tombstone);
                if m != n {
                    assert(level.pairs_at(m) == mid.pairs_at(m));
                }
            }
            assert(rewrote(before, *level, side, target, dup, n + 1));
        }
        n += 1;
    }
    let ghost done = *level;
    level.note_dead_pairs(dead);
    proof {
        done.lemma_same_arena(*level);
    }
    Ok(())
}

/// Replacing the pair that a node carries in itself touches nothing else.
pub proof fn lemma_set_inline(before: TddLevel, after: TddLevel, n: int)
    requires
        before.arena_wf(),
        0 <= n < before.nodes@.len(),
        before.nodes@[n] is Inline,
        after.nodes@.len() == before.nodes@.len(),
        after.nodes@[n] is Inline,
        forall|i: int|
            0 <= i < before.nodes@.len() && i != n ==> after.nodes@[i] == #[trigger] before.nodes@[i],
        after.pairs == before.pairs,
        after.ext == before.ext,
    ensures
        after.arena_wf(),
        forall|i: int|
            0 <= i < before.nodes@.len() && i != n ==> #[trigger] after.pairs_at(i)
                == before.pairs_at(i),
{
    assert forall|i: int| 0 <= i < before.nodes@.len() && i != n implies #[trigger] after.pairs_at(i)
        == before.pairs_at(i) && after.node_wf(i) by {
        assert(before.node_wf(i));
        assert(after.nodes@[i] == before.nodes@[i]);
    }
    assert forall|i: int| 0 <= i < after.nodes@.len() implies #[trigger] after.node_wf(i) by {
        assert(before.node_wf(i));
        if i != n {
            assert(after.pairs_at(i) == before.pairs_at(i));
        }
    }
    assert forall|a: int, b: int|
        0 <= a < after.nodes@.len() && 0 <= b < after.nodes@.len() && a
            != b implies #[trigger] after.apart(a, b) by {
        assert(before.apart(a, b));
        assert(a != n ==> after.nodes@[a] == before.nodes@[a]);
        assert(b != n ==> after.nodes@[b] == before.nodes@[b]);
    }
}

} // verus!
