//! Buffers that the contraction passes carry from level to level.

use super::dup_resolve::DupScratch;
use super::plan::MergeBuffers;
use crate::fx::no_entries;
use vstd::prelude::*;

verus! {

/// Buffers of the contraction passes. They carry room, and the groups and
/// marks that one step leaves for the next.
pub struct ContractScratch {
    /// Where every node of the level goes.
    pub merge_target: Vec<u32>,
    /// The compacted index of every node of the level.
    pub final_remap: Vec<u32>,
    /// Which nodes of the level are redirected.
    pub dup_redirect: Vec<bool>,
    /// Members of the groups of twins, group by group.
    pub flat_groups: Vec<u32>,
    /// Where each group begins.
    pub group_starts: Vec<u32>,
    /// For every vtree node, whether a level in its subtree is summed out.
    pub has_marg_below: Vec<bool>,
    /// Buffers of the planning pass.
    pub merge: MergeBuffers,
    /// Buffers of the duplicate resolution.
    pub dup: DupScratch,
    /// Sum of context hashes, by node.
    pub fingerprints: Vec<u64>,
    /// Which nodes have a context.
    pub referenced: Vec<bool>,
    /// Which nodes share their sum with another.
    pub is_candidate: Vec<bool>,
    /// Table of the nodes by fingerprint: fingerprint and node, or a mark for
    /// an empty place.
    pub twin_hash_table: Vec<(u64, u64)>,
}

impl ContractScratch {
    /// Empty buffers.
    pub fn new() -> (r: ContractScratch)
        ensures
            r.merge.empty(),
            r.dup.pairs@.len() == 0,
            r.dup.out@.len() == 0,
            no_entries(r.dup.counts@),
            r.merge_target@.len() == 0,
            r.final_remap@.len() == 0,
            r.dup_redirect@.len() == 0,
            r.flat_groups@.len() == 0,
            r.group_starts@.len() == 0,
            r.has_marg_below@.len() == 0,
            r.fingerprints@.len() == 0,
            r.referenced@.len() == 0,
            r.is_candidate@.len() == 0,
            r.twin_hash_table@.len() == 0,
    {
        ContractScratch {
            merge_target: Vec::new(),
            final_remap: Vec::new(),
            dup_redirect: Vec::new(),
            flat_groups: Vec::new(),
            group_starts: Vec::new(),
            has_marg_below: Vec::new(),
            merge: MergeBuffers::new(),
            dup: DupScratch::new(),
            fingerprints: Vec::new(),
            referenced: Vec::new(),
            is_candidate: Vec::new(),
            twin_hash_table: Vec::new(),
        }
    }

    /// Check the buffers of the planning pass out: they are empty.
    pub fn take_merge_buffers(&mut self) -> (r: MergeBuffers)
        ensures
            r.empty(),
            final(self).merge.empty(),
            *final(self) == (ContractScratch { merge: final(self).merge, ..*old(self) }),
    {
        let mut taken = MergeBuffers::new();
        std::mem::swap(&mut taken, &mut self.merge);
        taken.clear();
        taken
    }

    /// Hand the buffers of the planning pass back.
    pub fn put_merge_buffers(&mut self, buffers: MergeBuffers)
        ensures
            *final(self) == (ContractScratch { merge: buffers, ..*old(self) }),
    {
        self.merge = buffers;
    }
}

} // verus!
