//! Merging twin nodes.

use crate::level::{ExtMulti, InputPair, TddLevel, TddNodeData};
use vstd::prelude::*;

verus! {

/// The indices below `k` that `target` maps to themselves, in order.
pub open spec fn surv(target: Seq<u32>, k: int) -> Seq<int>
    decreases k,
{
    if k <= 0 {
        Seq::empty()
    } else if target[k - 1] == k - 1 {
        surv(target, k - 1).push(k - 1)
    } else {
        surv(target, k - 1)
    }
}

/// How many indices below `i` are mapped to themselves.
pub open spec fn rank_of(target: Seq<u32>, i: int) -> int {
    surv(target, i).len() as int
}

/// The list of survivors is strictly ascending and complete.
pub proof fn lemma_surv(target: Seq<u32>, k: int)
    requires
        0 <= k <= target.len(),
    ensures
        surv(target, k).len() <= k,
        forall|a: int|
            0 <= a < surv(target, k).len() ==> 0 <= #[trigger] surv(target, k)[a] < k
                && target[surv(target, k)[a]] == surv(target, k)[a],
        forall|a: int, b: int|
            0 <= a < b < surv(target, k).len() ==> surv(target, k)[a] < surv(target, k)[b],
        forall|i: int|
            0 <= i < k && target[i] == i ==> 0 <= #[trigger] rank_of(target, i) < surv(
                target,
                k,
            ).len() && surv(target, k)[rank_of(target, i)] == i,
    decreases k,
{
    if k > 0 {
        lemma_surv(target, k - 1);
        assert forall|i: int| 0 <= i < k && target[i] == i implies 0 <= #[trigger] rank_of(
            target,
            i,
        ) < surv(target, k).len() && surv(target, k)[rank_of(target, i)] == i by {
            if i == k - 1 {
                assert(surv(target, k) == surv(target, k - 1).push(k - 1));
            } else {
                assert(0 <= rank_of(target, i) < surv(target, k - 1).len());
            }
        }
    }
}

/// The lists of a level, its nodes reduced to the survivors of `target`.
pub open spec fn compacted(before: TddLevel, after: TddLevel, target: Seq<u32>) -> bool {
    let s = surv(target, before.nodes@.len() as int);
    &&& after.nodes@.len() == s.len()
    &&& forall|a: int|
        0 <= a < s.len() ==> #[trigger] after.nodes@[a] == before.nodes@[s[a]] && after.pairs_at(a)
            == before.pairs_at(s[a])
}

/// Arena slots of the nodes among the first `k` that `target` does not map to
/// themselves.
pub open spec fn dropped_pairs(level: TddLevel, target: Seq<u32>, k: int) -> nat
    decreases k,
{
    if k <= 0 {
        0
    } else if target[k - 1] == k - 1 {
        dropped_pairs(level, target, k - 1)
    } else {
        dropped_pairs(level, target, k - 1) + level.len_at(k - 1) as nat
    }
}

/// A number, cut off at the largest `usize`.
pub open spec fn capped(n: nat) -> usize {
    if n > usize::MAX {
        usize::MAX
    } else {
        n as usize
    }
}

/// Drop the nodes that `merge_target` does not map to themselves, keeping the
/// order of the others, and note the arena slots that go with them.
pub fn compact_explicit_level(level: &mut TddLevel, merge_target: &Vec<u32>)
    requires
        old(level).arena_wf(),
        old(level).nodes@.len() < 0xffff_ffff,
        merge_target@.len() >= old(level).nodes@.len(),
    ensures
        final(level).arena_wf(),
        compacted(*old(level), *final(level), merge_target@),
        final(level).dead_pairs == capped(
            old(level).dead_pairs as nat + dropped_pairs(
                *old(level),
                merge_target@,
                old(level).nodes@.len() as int,
            ),
        ),
        final(level).pairs@ == old(level).pairs@,
        final(level).same_store(*old(level)),
        final(level).same_flags(*old(level)),
{
    let ghost before = *level;
    let ghost target = merge_target@;
    let n: usize = level.nodes.len();
    let mut write: usize = 0;
    let mut dead: usize = 0;
    let mut read: usize = 0;
    while read < n
        invariant
            n == before.nodes@.len(),
            n < 0xffff_ffff,
            before.arena_wf(),
            target == merge_target@,
            target.len() >= n,
            0 <= write <= read <= n,
            level.nodes@.len() == n,
            write == surv(target, read as int).len(),
            forall|a: int|
                0 <= a < write ==> #[trigger] level.nodes@[a] == before.nodes@[surv(
                    target,
                    read as int,
                )[a]],
            forall|a: int| read <= a < n ==> #[trigger] level.nodes@[a] == before.nodes@[a],
            level.pairs == before.pairs,
            level.ext == before.ext,
            level.same_store(before),
            level.same_flags(before),
            level.dead_pairs == before.dead_pairs,
            dead == capped(dropped_pairs(before, target, read as int)),
        decreases n - read,
    {
        assert(before.node_wf(read as int));
        proof {
            lemma_surv(target, read as int);
        }
        let node = level.nodes[read];
        assert(node == before.nodes@[read as int]);
        if merge_target[read] == read as u32 {
            assert(surv(target, read + 1) == surv(target, read as int).push(read as int));
            level.nodes.set(write, node);
            write += 1;
        } else {
            let gone: usize = match node {
                TddNodeData::Multi { len, .. } => len as usize,
                TddNodeData::Extended(x) => level.ext[x].len as usize,
                _ => 0,
            };
            dead = dead.saturating_add(gone);
        }
        read += 1;
    }
    level.nodes.truncate(write);
    level.note_dead_pairs(dead);
    proof {
        let s = surv(target, n as int);
        lemma_surv(target, n as int);
        assert forall|a: int| 0 <= a < s.len() implies #[trigger] level.nodes@[a]
            == before.nodes@[s[a]] && level.pairs_at(a) == before.pairs_at(s[a]) && level.start_at(
            a,
        ) == before.start_at(s[a]) && level.len_at(a) == before.len_at(s[a]) by {
            assert(before.node_wf(s[a]));
        }
        assert forall|a: int| 0 <= a < level.nodes@.len() implies #[trigger] level.node_wf(a) by {
            assert(level.nodes@[a] == before.nodes@[s[a]]);
            assert(before.node_wf(s[a]));
        }
        assert forall|a: int, b: int|
            0 <= a < level.nodes@.len() && 0 <= b < level.nodes@.len() && a
                != b implies #[trigger] level.apart(a, b) by {
            assert(level.nodes@[a] == before.nodes@[s[a]]);
            assert(level.nodes@[b] == before.nodes@[s[b]]);
            assert(before.apart(s[a], s[b]));
        }
    }
}

/// The concatenation of the lists of `group`.
pub open spec fn concat_lists(level: TddLevel, group: Seq<u32>) -> Seq<InputPair>
    decreases group.len(),
{
    if group.len() == 0 {
        Seq::empty()
    } else {
        concat_lists(level, group.drop_last()) + level.pairs_at(group.last() as int)
    }
}

/// What a merge into `keep` leaves behind: the new list at `keep`, every other
/// node as it was, and the slots that `keep` gave up noted as dead.
pub open spec fn merged_into(
    before: TddLevel,
    after: TddLevel,
    keep: int,
    list: Seq<InputPair>,
) -> bool {
    &&& after.arena_wf()
    &&& after.nodes@.len() == before.nodes@.len()
    &&& after.pairs_at(keep) == list
    &&& !(after.nodes@[keep] is Tombstone)
    &&& forall|i: int|
        0 <= i < before.nodes@.len() && i != keep ==> #[trigger] after.pairs_at(i)
            == before.pairs_at(i) && after.nodes@[i] == before.nodes@[i]
    &&& after.same_store(before)
    &&& after.same_flags(before)
    &&& after.dead_pairs == if before.dead_pairs + before.len_at(keep) > usize::MAX {
        usize::MAX as int
    } else {
        before.dead_pairs + before.len_at(keep)
    }
}

/// Point node `keep` at the pairs appended from `new_start` on: carried in the
/// node where there is one and it fits, else as a range.
fn finalize_merged_node(
    level: &mut TddLevel,
    keep: usize,
    new_start: usize,
    Ghost(before): Ghost<TddLevel>,
    Ghost(list): Ghost<Seq<InputPair>>,
)
    requires
        before.arena_wf(),
        keep < before.nodes@.len(),
        new_start == before.pairs@.len(),
        old(level).pairs@ == before.pairs@ + list,
        old(level).nodes == before.nodes,
        old(level).ext == before.ext,
        old(level).same_store(before),
        old(level).same_flags(before),
        old(level).dead_pairs == before.dead_pairs,
    ensures
        merged_into(before, *final(level), keep as int, list),
{
    assert(before.node_wf(keep as int));
    let abandoned: usize = match level.nodes[keep] {
        TddNodeData::Multi { len, .. } => len as usize,
        TddNodeData::Extended(x) => level.ext[x].len as usize,
        _ => 0,
    };
    let new_len: usize = level.pairs.len() - new_start;
    assert(new_len == list.len());
    if new_len == 1 {
        let pair = level.pairs[new_start];
        assert(pair == list[0]);
        if pair.can_inline() {
            let _ = level.pairs.pop();
            level.nodes.set(keep, TddNodeData::Inline(pair));
            assert(level.pairs@ =~= before.pairs@);
            assert(level.pairs_at(keep as int) =~= list);
        } else {
            let e: usize = level.ext.len();
            level.ext.push(ExtMulti { start: new_start as u64, len: 1 });
            level.nodes.set(keep, TddNodeData::Extended(e));
            assert(level.pairs_at(keep as int) =~= list);
        }
    } else {
        let node = level.encode_multi(new_start, new_len);
        level.nodes.set(keep, node);
        assert(level.pairs_at(keep as int) =~= list);
    }
    level.note_dead_pairs(abandoned);
    proof {
        assert(level.pairs_at(keep as int) == list);
        assert forall|i: int| 0 <= i < before.nodes@.len() && i != keep implies #[trigger] level.pairs_at(i)
            == before.pairs_at(i) && level.nodes@[i] == before.nodes@[i] && level.start_at(i)
            == before.start_at(i) && level.len_at(i) == before.len_at(i) && level.node_wf(i) by {
            assert(before.node_wf(i));
            before.lemma_same_node(*level, i);
        }
        assert forall|i: int| 0 <= i < level.nodes@.len() implies #[trigger] level.node_wf(i) by {
            if i != keep {
                assert(level.pairs_at(i) == before.pairs_at(i));
            }
        }
        assert forall|a: int, b: int|
            0 <= a < level.nodes@.len() && 0 <= b < level.nodes@.len() && a
                != b implies #[trigger] level.apart(a, b) by {
            assert(before.apart(a, b));
            assert(before.node_wf(a));
            assert(before.node_wf(b));
            if a != keep {
                assert(level.pairs_at(a) == before.pairs_at(a));
            }
            if b != keep {
                assert(level.pairs_at(b) == before.pairs_at(b));
            }
        }
    }
}

/// Concatenate the lists of `group` at the arena tail and point `keep` at the
/// result. Lists are multisets, so the concatenation is their union; every
/// source range is left behind as dead arena.
pub fn concat_twin_pairs(level: &mut TddLevel, keep: usize, group: &[u32])
    requires
        old(level).arena_wf(),
        keep < old(level).nodes@.len(),
        forall|g: int| 0 <= g < group@.len() ==> #[trigger] group@[g] < old(level).nodes@.len(),
    ensures
        merged_into(*old(level), *final(level), keep as int, concat_lists(*old(level), group@)),
{
    let ghost before = *level;
    let new_start: usize = level.pairs.len();
    let mut g: usize = 0;
    while g < group.len()
        invariant
            before.arena_wf(),
            0 <= g <= group@.len(),
            forall|q: int| 0 <= q < group@.len() ==> #[trigger] group@[q] < before.nodes@.len(),
            new_start == before.pairs@.len(),
            level.pairs@ == before.pairs@ + concat_lists(before, group@.take(g as int)),
            level.nodes == before.nodes,
            level.ext == before.ext,
            level.same_store(before),
            level.same_flags(before),
            level.dead_pairs == before.dead_pairs,
        decreases group@.len() - g,
    {
        let idx: usize = group[g] as usize;
        let ghost done = concat_lists(before, group@.take(g as int));
        let ghost list = before.pairs_at(idx as int);
        assert(group@.take(g + 1).drop_last() =~= group@.take(g as int));
        assert(concat_lists(before, group@.take(g + 1)) == done + list);
        assert(before.node_wf(idx as int));
        match level.nodes[idx] {
            TddNodeData::Inline(p) => {
                level.pairs.push(p);
                assert(level.pairs@ =~= before.pairs@ + (done + list));
            },
            TddNodeData::Leaf(_) | TddNodeData::Tombstone => {
                assert(level.pairs@ =~= before.pairs@ + (done + list));
            },
            node => {
                let (start, len): (usize, usize) = match node {
                    TddNodeData::Multi { start, len } => (start as usize, len as usize),
                    TddNodeData::Extended(x) => (
                        level.ext[x].start as usize,
                        level.ext[x].len as usize,
                    ),
                    _ => (0, 0),
                };
                assert(start == before.start_at(idx as int) && len == before.len_at(idx as int));
                let mut k: usize = 0;
                while k < len
                    invariant
                        0 <= k <= len,
                        start + len <= before.pairs.len(),
                        list == before.pairs@.subrange(start as int, start + len),
                        level.pairs@ == before.pairs@ + done + list.take(k as int),
                        level.nodes == before.nodes,
                        level.ext == before.ext,
                        level.same_store(before),
                        level.same_flags(before),
                        level.dead_pairs == before.dead_pairs,
                    decreases len - k,
                {
                    let p = level.pairs[start + k];
                    assert(p == list[k as int]);
                    level.pairs.push(p);
                    assert(list.take(k + 1) =~= list.take(k as int).push(p));
                    assert(level.pairs@ =~= before.pairs@ + done + list.take(k + 1));
                    k += 1;
                }
                assert(list.take(len as int) =~= list);
                assert(level.pairs@ =~= before.pairs@ + (done + list));
            },
        }
        g += 1;
    }
    assert(group@.take(group@.len() as int) =~= group@);
    finalize_merged_node(
        level,
        keep,
        new_start,
        Ghost(before),
        Ghost(concat_lists(before, group@)),
    );
}

/// Merge two nodes: the list of `other` goes behind that of `keep`.
pub fn merge_two_internal_twins(level: &mut TddLevel, keep: usize, other: usize)
    requires
        old(level).arena_wf(),
        keep < old(level).nodes@.len(),
        other < old(level).nodes@.len(),
        old(level).nodes@.len() < 0xffff_ffff,
    ensures
        merged_into(
            *old(level),
            *final(level),
            keep as int,
            old(level).pairs_at(keep as int) + old(level).pairs_at(other as int),
        ),
{
    let ghost before = *level;
    let keep_len: usize = level.pair_count_at(keep);
    let other_len: usize = level.pair_count_at(other);
    if keep_len == 1 && other_len == 1 {
        let pa = level.pairs_of_idx(keep)[0];
        let pb = level.pairs_of_idx(other)[0];
        let new_start: usize = level.pairs.len();
        level.pairs.push(pa);
        level.pairs.push(pb);
        proof {
            let list = before.pairs_at(keep as int) + before.pairs_at(other as int);
            assert(list =~= seq![pa, pb]);
            assert(level.pairs@ =~= before.pairs@ + list);
        }
        finalize_merged_node(
            level,
            keep,
            new_start,
            Ghost(before),
            Ghost(before.pairs_at(keep as int) + before.pairs_at(other as int)),
        );
        return ;
    }
    let group: [u32; 2] = [keep as u32, other as u32];
    proof {
        let g = group@;
        assert(g.drop_last() =~= seq![keep as u32]);
        assert(g.drop_last().drop_last() =~= Seq::<u32>::empty());
        assert(concat_lists(before, g.drop_last().drop_last()) =~= Seq::<InputPair>::empty());
        assert(concat_lists(before, g.drop_last()) =~= before.pairs_at(keep as int));
        assert(concat_lists(before, g) =~= before.pairs_at(keep as int) + before.pairs_at(
            other as int,
        ));
    }
    concat_twin_pairs(level, keep, &group);
}

} // verus!
