//! The counts of one level, folded from the levels below it.

use crate::counts::{Count, CountRef, CountVec};
use crate::fold::{
    context_col, ensure_fold_walk, holds_pairs, ready, ColumnRetention, FoldContext, FoldShape,
    IntFold,
};
use crate::level::{TddLevel, LEAF_WIDTH};
use crate::query::count::{leaf_column, lemma_reader_psum, SideReader};
use crate::reserve::ReservePolicy;
use crate::tdd::{
    col, eff_width, free_seed, lemma_col_internal, lemma_col_len, list_ok, pair_ok, refs_ok, sides,
    Tdd,
};
use crate::vtree::{Vtree, VtreeIdx};
use vstd::prelude::*;

verus! {

/// The model counts of a diagram, as a bottom-up walk computes them. Marginal
/// levels are read from their stores and leaves from a column of their own.
pub struct CountContext<'a> {
    /// The diagram.
    pub tdd: &'a Tdd,
    /// The counts of the leaf labels.
    pub leaf: CountVec,
}

impl<'a> FoldShape<IntFold> for CountContext<'a> {
    open spec fn tree(&self) -> Vtree {
        self.tdd.vt()
    }

    open spec fn level_seq(&self) -> Seq<TddLevel> {
        self.tdd.levels@
    }

    open spec fn wf(&self) -> bool {
        &&& self.tdd.wf()
        &&& self.tdd.unweighted()
        &&& self.leaf.wf()
        &&& self.leaf.vals() == Seq::new(LEAF_WIDTH as nat, |i: int| free_seed()(0, i))
    }

    open spec fn done(&self, li: int) -> bool {
        self.tdd.levels@[li].marginal()
    }

    open spec fn node_value(&self, li: int, i: int) -> nat {
        col(self.tdd.levels@, self.tdd.vt(), free_seed(), li)[i]
    }

    open spec fn empty_value(&self) -> nat {
        0
    }
}

impl<'a> CountContext<'a> {
    /// The context of `tdd`.
    pub fn new(tdd: &'a Tdd) -> (r: CountContext<'a>)
        requires
            tdd.wf(),
            tdd.unweighted(),
        ensures
            r.wf(),
            r.tdd == tdd,
    {
        let leaf = leaf_column();
        CountContext { tdd, leaf }
    }

    /// The column of an internal level holds the counts of the level.
    proof fn lemma_context_col(self, li: int)
        requires
            self.wf(),
            0 <= li < self.tdd.vtree.n(),
            !self.tdd.vtree.leaf_at(li),
            !self.tdd.levels@[li].marginal(),
        ensures
            context_col::<IntFold, CountContext>(self, li) == col(
                self.tdd.levels@,
                self.tdd.vt(),
                free_seed(),
                li,
            ),
    {
        let levels = self.tdd.levels@;
        let vt = self.tdd.vt();
        let c = col(levels, vt, free_seed(), li);
        lemma_col_len(levels, vt, free_seed(), li);
        lemma_col_internal(levels, vt, free_seed(), li);
        assert forall|i: int| 0 <= i < c.len() && !holds_pairs(levels[li], i) implies c[i] == 0 by {
            assert(levels[li].pairs_at(i).len() == 0);
        }
        assert(context_col::<IntFold, CountContext>(self, li) =~= c);
    }

    /// A reader over the counts of child level `c`.
    fn side<'b>(&'b self, c: usize, computed: &'b Vec<Option<CountVec>>) -> (r: SideReader<'b>)
        requires
            self.wf(),
            c < self.tdd.vtree.n(),
            computed@.len() == self.tdd.vtree.n(),
            ready::<IntFold, CountContext>(*self, computed@, c as int),
        ensures
            r.marg == self.tdd.levels@[c as int].marginal(),
            r.col.wf(),
            r.vals() == col(self.tdd.levels@, self.tdd.vt(), free_seed(), c as int),
            r.col.fast@.len() == eff_width(self.tdd.levels@, self.tdd.vt(), c as int),
    {
        let ghost levels = self.tdd.levels@;
        let ghost vt = self.tdd.vt();
        let ghost expected = col(levels, vt, free_seed(), c as int);
        proof {
            lemma_col_len(levels, vt, free_seed(), c as int);
            assert(levels[c as int].wf());
        }
        let level = &self.tdd.levels[c];
        let marg: bool = level.is_marginal();
        if self.tdd.vtree.is_leaf(VtreeIdx(c as u32)) {
            let r = SideReader { marg, col: self.leaf.as_count_ref() };
            proof {
                assert(r.vals() =~= self.leaf.vals());
                assert(r.vals() =~= expected);
            }
            return r;
        }
        if marg {
            if let Some(counts) = &level.marginal_counts {
                let big = match &level.marginal_counts_big {
                    Some(b) => Some(b),
                    None => None,
                };
                let r = SideReader {
                    marg,
                    col: CountRef::from_parts_scanned(counts.as_slice(), big),
                };
                assert(r.vals() =~= expected);
                return r;
            }
            assert(false);
        }
        match &computed[c] {
            Some(column) => {
                let r = SideReader { marg, col: column.as_count_ref() };
                proof {
                    self.lemma_context_col(c as int);
                    assert(r.vals() =~= column.vals());
                }
                r
            },
            None => {
                assert(false);
                SideReader { marg, col: self.leaf.as_count_ref() }
            },
        }
    }
}

impl<'a> FoldContext<IntFold> for CountContext<'a> {
    fn already_done(&self, li: usize) -> (r: bool) {
        self.tdd.levels[li].is_marginal()
    }

    fn fold_node(
        &self,
        li: usize,
        i: usize,
        l_i: usize,
        r_i: usize,
        computed: &Vec<Option<CountVec>>,
    ) -> (r: Count) {
        let ghost levels = self.tdd.levels@;
        let ghost vt = self.tdd.vt();
        proof {
            assert(vt.node_wf(li as int));
            assert(levels[li as int].wf());
            assert(refs_ok(levels, vt, li as int));
        }
        let l = self.side(l_i, computed);
        let r = self.side(r_i, computed);
        let list = self.tdd.levels[li].pairs_of_idx(i);
        proof {
            let s = sides(levels, vt, free_seed(), li as int);
            assert(list_ok(levels, vt, li as int, levels[li as int].pairs_at(i as int)));
            assert forall|k: int| 0 <= k < list@.len() implies crate::fold::CountReader::readable(
                &l,
                (#[trigger] list@[k]).left.0,
            ) && crate::fold::CountReader::readable(&r, list@[k].right.0) by {
                assert(pair_ok(levels, vt, li as int, list@[k]));
            }
            lemma_reader_psum(list@, l, r, s);
            lemma_col_internal(levels, vt, free_seed(), li as int);
        }
        IntFold::fold(list, &l, &r)
    }
}

/// The model counts of the nodes of internal level `t`. Columns below it are
/// held no longer than needed.
pub fn fold_level<R: ReservePolicy>(policy: &mut R, tdd: &Tdd, t: VtreeIdx) -> (r: Result<
    CountVec,
    R::Err,
>)
    requires
        tdd.wf(),
        tdd.unweighted(),
        t.0 < tdd.vtree.n(),
        !tdd.vtree.leaf_at(t.0 as int),
        !tdd.levels@[t.0 as int].marginal(),
    ensures
        R::carried(*old(policy), *final(policy)),
        R::infallible() ==> r is Ok,
        r matches Ok(c) ==> c.wf() && c.vals() == col(
            tdd.levels@,
            tdd.vt(),
            free_seed(),
            t.0 as int,
        ),
{
    let ctx = CountContext::new(tdd);
    let n: usize = tdd.vtree.num_nodes();
    let mut computed: Vec<Option<CountVec>> = Vec::new();
    while computed.len() < n
        invariant
            computed@.len() <= n,
            forall|u: int| 0 <= u < computed@.len() ==> (#[trigger] computed@[u]) is None,
        decreases n - computed@.len(),
    {
        computed.push(None);
    }
    match ensure_fold_walk::<IntFold, R, CountContext>(
        policy,
        t.idx(),
        &tdd.vtree,
        &tdd.levels,
        &mut computed,
        &Count::Fast(0),
        &ctx,
        ColumnRetention::Frontier,
    ) {
        Ok(()) => {},
        Err(e) => {
            return Err(e);
        },
    }
    proof {
        ctx.lemma_context_col(t.0 as int);
    }
    match computed.swap_remove(t.idx()) {
        Some(c) => Ok(c),
        None => {
            assert(false);
            Ok(ctx.leaf)
        },
    }
}

} // verus!
