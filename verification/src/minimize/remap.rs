//! Renaming the references on one side of a level.

use crate::level::{
    get_side_ref, set_side_ref, side_ref, with_side_ref, ChildSide, InputPair, TddLevel,
    TddNodeData,
};
use crate::marg_ref::{marg_ref, MargRef};
use crate::tdd::{psum, ref_val, Sides};
use vstd::prelude::*;

verus! {

/// A reference after the renaming. Inline counts stay.
pub open spec fn mapped_ref(raw: u32, marg: bool, table: Seq<u32>) -> u32 {
    if marg {
        match marg_ref(raw) {
            MargRef::Slot(s) => table[s as int],
            MargRef::Inline(_) => raw,
        }
    } else {
        table[raw as int]
    }
}

/// A pair after the renaming.
pub open spec fn mapped_pair(p: InputPair, side: ChildSide, marg: bool, table: Seq<u32>) -> InputPair {
    with_side_ref(p, side, mapped_ref(side_ref(p, side), marg, table))
}

/// A list after the renaming.
pub open spec fn mapped_list(
    list: Seq<InputPair>,
    side: ChildSide,
    marg: bool,
    table: Seq<u32>,
) -> Seq<InputPair> {
    list.map_values(|p: InputPair| mapped_pair(p, side, marg, table))
}

/// Every reference of the list can be renamed.
pub open spec fn mappable(list: Seq<InputPair>, side: ChildSide, marg: bool, width: int) -> bool {
    forall|k: int|
        0 <= k < list.len() ==> if marg {
            &&& side_ref(#[trigger] list[k], side) < 0x8000_0000
            &&& marg_ref(side_ref(list[k], side)) matches MargRef::Slot(s) ==> s < width
        } else {
            side_ref(list[k], side) < width
        }
}

/// The first `k` lists have been renamed.
pub open spec fn mapped_upto(
    before: TddLevel,
    after: TddLevel,
    side: ChildSide,
    marg: bool,
    table: Seq<u32>,
    k: int,
) -> bool {
    &&& after.arena_wf()
    &&& after.nodes@.len() == before.nodes@.len()
    &&& after == (TddLevel { nodes: after.nodes, pairs: after.pairs, ..before })
    &&& forall|i: int|
        0 <= i < before.nodes@.len() ==> #[trigger] after.pairs_at(i) == if i < k {
            mapped_list(before.pairs_at(i), side, marg, table)
        } else {
            before.pairs_at(i)
        }
    &&& forall|i: int|
        0 <= i < before.nodes@.len() ==> (#[trigger] after.nodes@[i] is Tombstone
            <==> before.nodes@[i] is Tombstone)
}

/// The new name of a reference.
fn new_ref(raw: u32, marg: bool, table: &Vec<u32>) -> (r: u32)
    requires
        if marg {
            &&& raw < 0x8000_0000
            &&& marg_ref(raw) matches MargRef::Slot(s) ==> s < table@.len()
        } else {
            raw < table@.len()
        },
    ensures
        r == mapped_ref(raw, marg, table@),
{
    if marg {
        match MargRef::from_raw(raw) {
            MargRef::Slot(s) => table[s as usize],
            MargRef::Inline(_) => raw,
        }
    } else {
        table[raw as usize]
    }
}

/// Rename the references of node `i`, which names an arena range.
fn map_arena_node(level: &mut TddLevel, i: usize, side: ChildSide, marg: bool, table: &Vec<u32>)
    requires
        old(level).arena_wf(),
        i < old(level).nodes@.len(),
        old(level).in_arena(i as int),
        mappable(old(level).pairs_at(i as int), side, marg, table@.len() as int),
    ensures
        final(level).arena_wf(),
        *final(level) == (TddLevel { pairs: final(level).pairs, ..*old(level) }),
        final(level).pairs_at(i as int) == mapped_list(
            old(level).pairs_at(i as int),
            side,
            marg,
            table@,
        ),
        forall|j: int|
            0 <= j < old(level).nodes@.len() && j != i ==> #[trigger] final(level).pairs_at(j)
                == old(level).pairs_at(j),
{
    let ghost before = *level;
    let ghost list = level.pairs_at(i as int);
    assert(level.node_wf(i as int));
    let n: usize = level.arena_pairs_at(i);
    let mut k: usize = 0;
    while k < n
        invariant
            k <= n,
            before == *old(level),
            before.arena_wf(),
            i < before.nodes@.len(),
            before.in_arena(i as int),
            list == before.pairs_at(i as int),
            n == before.len_at(i as int),
            n == list.len(),
            mappable(list, side, marg, table@.len() as int),
            level.arena_wf(),
            *level == (TddLevel { pairs: level.pairs, ..before }),
            level.pairs_at(i as int).len() == n,
            forall|q: int|
                0 <= q < n ==> #[trigger] level.pairs_at(i as int)[q] == if q < k {
                    mapped_pair(list[q], side, marg, table@)
                } else {
                    list[q]
                },
            forall|j: int|
                0 <= j < before.nodes@.len() && j != i ==> #[trigger] level.pairs_at(j)
                    == before.pairs_at(j),
        decreases n - k,
    {
        let p: InputPair = level.pairs_of_idx(i)[k];
        assert(p == list[k as int]);
        let q = set_side_ref(p, side, new_ref(get_side_ref(p, side), marg, table));
        level.write_pair(i, k, q);
        k += 1;
    }
    assert(level.pairs_at(i as int) =~= mapped_list(list, side, marg, table@));
}

/// Rename the references on `side` of every list.
pub fn map_side_refs(level: &mut TddLevel, side: ChildSide, marg: bool, table: &Vec<u32>)
    requires
        old(level).arena_wf(),
        forall|i: int|
            0 <= i < old(level).nodes@.len() ==> mappable(
                #[trigger] old(level).pairs_at(i),
                side,
                marg,
                table@.len() as int,
            ),
    ensures
        mapped_upto(
            *old(level),
            *final(level),
            side,
            marg,
            table@,
            old(level).nodes@.len() as int,
        ),
{
    let ghost before = *level;
    let n: usize = level.nodes.len();
    let mut i: usize = 0;
    while i < n
        invariant
            i <= n,
            before == *old(level),
            before.arena_wf(),
            n == before.nodes@.len(),
            forall|i: int|
                0 <= i < before.nodes@.len() ==> mappable(
                    #[trigger] before.pairs_at(i),
                    side,
                    marg,
                    table@.len() as int,
                ),
            mapped_upto(before, *level, side, marg, table@, i as int),
        decreases n - i,
    {
        let ghost mid = *level;
        assert(mid.pairs_at(i as int) == before.pairs_at(i as int));
        match level.nodes[i] {
            TddNodeData::Inline(p) => {
                proof {
                    assert(before.pairs_at(i as int)[0] == p);
                    assert(mappable(before.pairs_at(i as int), side, marg, table@.len() as int));
                }
                let q = set_side_ref(p, side, new_ref(get_side_ref(p, side), marg, table));
                level.nodes.set(i, TddNodeData::Inline(q));
                proof {
                    assert forall|j: int| 0 <= j < before.nodes@.len() && j != i implies #[trigger] level.pairs_at(
                    j) == mid.pairs_at(j) by {
                        assert(mid.node_wf(j));
                        mid.lemma_same_node(*level, j);
                    }
                    assert forall|j: int| 0 <= j < level.nodes@.len() implies #[trigger] level.node_wf(
                    j) by {
                        assert(mid.node_wf(j));
                    }
                    assert forall|a: int, b: int|
                        0 <= a < level.nodes@.len() && 0 <= b < level.nodes@.len() && a
                            != b implies #[trigger] level.apart(a, b) by {
                        assert(mid.apart(a, b));
                    }
                    assert(level.pairs_at(i as int) =~= mapped_list(
                        before.pairs_at(i as int),
                        side,
                        marg,
                        table@,
                    ));
                }
            },
            TddNodeData::Leaf(_) => {
                assert(level.pairs_at(i as int) =~= mapped_list(
                    before.pairs_at(i as int),
                    side,
                    marg,
                    table@,
                ));
            },
            TddNodeData::Tombstone => {
                assert(level.pairs_at(i as int) =~= mapped_list(
                    before.pairs_at(i as int),
                    side,
                    marg,
                    table@,
                ));
            },
            _ => {
                map_arena_node(level, i, side, marg, table);
            },
        }
        i += 1;
        assert(mapped_upto(before, *level, side, marg, table@, i as int));
    }
}

/// The values of one side.
pub open spec fn side_vals(s: Sides, side: ChildSide) -> Seq<nat> {
    match side {
        ChildSide::Left => s.lc,
        ChildSide::Right => s.rc,
    }
}

/// Whether one side is summed out.
pub open spec fn side_marg(s: Sides, side: ChildSide) -> bool {
    match side {
        ChildSide::Left => s.lm,
        ChildSide::Right => s.rm,
    }
}

/// Two views of the children that differ on `side` only.
pub open spec fn differ_on(a: Sides, b: Sides, side: ChildSide) -> bool {
    &&& a.lm == b.lm
    &&& a.rm == b.rm
    &&& match side {
        ChildSide::Left => a.rc == b.rc,
        ChildSide::Right => a.lc == b.lc,
    }
}

/// A renaming that finds every value under its new name keeps the value of
/// a list.
pub proof fn lemma_mapped_psum(
    list: Seq<InputPair>,
    side: ChildSide,
    table: Seq<u32>,
    a: Sides,
    b: Sides,
)
    requires
        differ_on(a, b, side),
        mappable(list, side, side_marg(a, side), table.len() as int),
        forall|k: int|
            0 <= k < list.len() ==> moves_well(
                side_ref(#[trigger] list[k], side),
                side_marg(a, side),
                table,
                side_vals(a, side),
                side_vals(b, side),
            ),
    ensures
        psum(mapped_list(list, side, side_marg(a, side), table), b) == psum(list, a),
    decreases list.len(),
{
    let marg = side_marg(a, side);
    let m = mapped_list(list, side, marg, table);
    if list.len() > 0 {
        let rest = list.drop_last();
        assert forall|k: int| 0 <= k < rest.len() implies moves_well(
            side_ref(#[trigger] rest[k], side),
            marg,
            table,
            side_vals(a, side),
            side_vals(b, side),
        ) by {
            assert(rest[k] == list[k]);
        }
        assert(mappable(rest, side, marg, table.len() as int)) by {
            assert forall|k: int| 0 <= k < rest.len() implies if marg {
                &&& side_ref(#[trigger] rest[k], side) < 0x8000_0000
                &&& marg_ref(side_ref(rest[k], side)) matches MargRef::Slot(s) ==> s < table.len()
            } else {
                side_ref(rest[k], side) < table.len()
            } by {
                assert(rest[k] == list[k]);
            }
        }
        lemma_mapped_psum(rest, side, table, a, b);
        assert(m.drop_last() =~= mapped_list(rest, side, marg, table));
        let p = list[list.len() - 1];
        assert(list.last() == p);
        assert(m.last() == mapped_pair(p, side, marg, table));
    }
}

/// The value of a reference is found under its new name.
pub open spec fn moves_well(
    raw: u32,
    marg: bool,
    table: Seq<u32>,
    before: Seq<nat>,
    after: Seq<nat>,
) -> bool {
    ref_val(mapped_ref(raw, marg, table), marg, after) == ref_val(raw, marg, before)
}

} // verus!
