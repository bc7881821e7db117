//! Canonicity: a function has one diagram over a vtree, up to the numbering of
//! its nodes.
//!
//! Seen from below, a diagram in which no pair occurs twice sends every
//! assignment to at most one node of each level. A node's *context* is the set
//! of assignments of the other variables that lead from it to the output. Nodes
//! with different partners have different contexts, so a node can be told by
//! the function alone.

use crate::build::{pins_of, value_under};
use crate::conjoin::plain;
use crate::level::{
    other_ref, side_ref, ChildSide, InputPair, LeafLabel, TddLevel, LEAF_WIDTH, NEG_LEAF_RAW,
    ONE_LEAF_RAW, POS_LEAF_RAW, ZERO_RAW,
};
use crate::minimize::contract::content_twin::side_under;
use crate::minimize::contract::twin_value::{sibs, twins};
use crate::query::count::{pin_at, pinned_seed};
use crate::query::pins::{below, lemma_below_one};
use crate::tdd::{
    col, eff_width, lemma_col_internal, level_pairs, list_ok, pair_ok, pair_total, psum, ref_val,
    refs_ok, sides, term, Sides, Tdd,
};
use crate::vtree::Vtree;
use vstd::prelude::*;

verus! {

/// The leaf of variable `v`.
pub open spec fn leaf_of(vt: Vtree, v: int) -> int {
    vt.var_to_leaf@[v].0 as int
}

/// An assignment of all variables.
pub open spec fn total_asg(vt: Vtree, x: Seq<bool>) -> bool {
    x.len() == vt.num_vars_spec()
}

/// The two assignments agree on the variables below `t`.
pub open spec fn agree_below(vt: Vtree, t: int, x: Seq<bool>, y: Seq<bool>) -> bool {
    forall|v: int|
        0 <= v < vt.num_vars_spec() && below(vt, t, leaf_of(vt, v)) ==> #[trigger] x[v] == y[v]
}

/// The two assignments agree on the variables that are not below `t`.
pub open spec fn agree_outside(vt: Vtree, t: int, x: Seq<bool>, y: Seq<bool>) -> bool {
    forall|v: int|
        0 <= v < vt.num_vars_spec() && !below(vt, t, leaf_of(vt, v)) ==> #[trigger] x[v] == y[v]
}

/// `x` on the variables below `t`, `y` on the others.
pub open spec fn mixed(vt: Vtree, t: int, x: Seq<bool>, y: Seq<bool>) -> Seq<bool> {
    Seq::new(
        vt.num_vars_spec() as nat,
        |v: int|
            if below(vt, t, leaf_of(vt, v)) {
                x[v]
            } else {
                y[v]
            },
    )
}

/// Whether the function of node `i` at `t` holds under `x`.
pub open spec fn accepts(d: Tdd, t: int, i: int, x: Seq<bool>) -> bool {
    col(d.levels@, *d.vtree, pinned_seed(*d.vtree, pins_of(x), true), t)[i] > 0
}

/// The child of `p` beside `t`.
pub open spec fn beside(vt: Vtree, p: int, t: int) -> int {
    if vt.left_at(p) == t {
        vt.right_at(p)
    } else {
        vt.left_at(p)
    }
}

/// Whether the function of node `i` at `t` leads to the output, where the
/// other variables are set by `x`.
pub open spec fn leads(d: Tdd, t: int, i: int, x: Seq<bool>) -> bool
    decreases d.vtree.n() - d.vtree.rank_at(t),
{
    match d.vtree.parent_at(t) {
        None => i == d.output.local.0,
        Some(q) => {
            let p = q.0 as int;
            let side = side_under(*d.vtree, p, t);
            d.vtree.rank_at(t) < d.vtree.rank_at(p) < d.vtree.n() && exists|n: int, k: int|
                0 <= n < d.levels@[p].nodes@.len() && 0 <= k < d.levels@[p].pairs_at(n).len()
                    && side_ref(#[trigger] d.levels@[p].pairs_at(n)[k], side) == i && accepts(
                    d,
                    beside(*d.vtree, p, t),
                    other_ref(d.levels@[p].pairs_at(n)[k], side) as int,
                    x,
                ) && leads(d, p, n, x)
        },
    }
}

/// Whether node `i` at `t` is the output or stands in a list of the level
/// above.
pub open spec fn named(d: Tdd, t: int, i: int) -> bool {
    match d.vtree.parent_at(t) {
        None => i == d.output.local.0,
        Some(q) => {
            let p = q.0 as int;
            let side = side_under(*d.vtree, p, t);
            exists|n: int, k: int|
                0 <= n < d.levels@[p].nodes@.len() && 0 <= k < d.levels@[p].pairs_at(n).len()
                    && side_ref(#[trigger] d.levels@[p].pairs_at(n)[k], side) == i
        },
    }
}

/// Every node is named and has a pair.
pub open spec fn trimmed(d: Tdd) -> bool {
    forall|t: int, i: int|
        0 <= t < d.vtree.n() && !d.vtree.leaf_at(t) && 0 <= i < d.levels@[t].nodes@.len()
            ==> #[trigger] d.levels@[t].pairs_at(i).len() > 0 && named(d, t, i)
}

/// No pair occurs twice at a level, and where a literal of a leaf is named, its
/// constant is not.
pub open spec fn unambiguous(d: Tdd) -> bool {
    &&& forall|t: int, i: int, k: int, j: int, m: int|
        0 <= t < d.vtree.n() && !d.vtree.leaf_at(t) && 0 <= i < d.levels@[t].nodes@.len() && 0 <= j
            < d.levels@[t].nodes@.len() && 0 <= k < d.levels@[t].pairs_at(i).len() && 0 <= m
            < d.levels@[t].pairs_at(j).len() && #[trigger] d.levels@[t].pairs_at(i)[k]
            == #[trigger] d.levels@[t].pairs_at(j)[m] ==> i == j && k == m
    &&& forall|t: int|
        0 <= t < d.vtree.n() && d.vtree.leaf_at(t) && #[trigger] named(
            d,
            t,
            ONE_LEAF_RAW as int,
        ) ==> !named(d, t, POS_LEAF_RAW as int) && !named(d, t, NEG_LEAF_RAW as int)
}

/// No two nodes that are named have the same partners.
pub open spec fn twin_free(d: Tdd) -> bool {
    forall|t: int, i: int, j: int|
        0 <= t < d.vtree.n() && d.vtree.parent_at(t) is Some && #[trigger] named(d, t, i)
            && #[trigger] named(d, t, j) && i != j ==> !twins(
            d.levels@[d.vtree.up(t)],
            side_under(*d.vtree, d.vtree.up(t), t),
            i,
            j,
        )
}

/// A diagram in canonical form: a Boolean function that is not constant false,
/// with nothing to pack and nothing to contract.
pub open spec fn canonical(d: Tdd) -> bool {
    &&& plain(d)
    &&& d.output.local.0 != ZERO_RAW
    &&& trimmed(d)
    &&& unambiguous(d)
    &&& twin_free(d)
}

/// The two nodes have the same context.
pub open spec fn same_context(a: Tdd, b: Tdd, t: int, i: int, j: int) -> bool {
    forall|x: Seq<bool>|
        total_asg(*a.vtree, x) ==> #[trigger] leads(a, t, i, x) == leads(b, t, j, x)
}

/// The parent of `t`, with what is known of it.
pub proof fn lemma_parent(vt: Vtree, t: int)
    requires
        vt.wf(),
        0 <= t < vt.n(),
        vt.parent_at(t) is Some,
    ensures
        ({
            let p = vt.up(t);
            let s = beside(vt, p, t);
            &&& 0 <= p < vt.n()
            &&& !vt.leaf_at(p)
            &&& vt.rank_at(t) < vt.rank_at(p) < vt.n()
            &&& 0 <= s < vt.n()
            &&& vt.rank_at(s) < vt.rank_at(p)
            &&& vt.parent_at(s) == vt.parent_at(t)
            &&& vt.left_at(p) == t && vt.right_at(p) == s && side_under(vt, p, t) == ChildSide::Left
                && side_under(vt, p, s) == ChildSide::Right || vt.left_at(p) == s && vt.right_at(p)
                == t && side_under(vt, p, t) == ChildSide::Right && side_under(vt, p, s)
                == ChildSide::Left
            &&& beside(vt, p, s) == t
        }),
{
    assert(vt.node_wf(t));
    let p = vt.up(t);
    assert(vt.node_wf(p));
    assert(vt.node_wf(vt.left_at(p)) && vt.node_wf(vt.right_at(p)));
}

/// A pair that holds makes the list hold, and a list that holds has one.
proof fn lemma_psum_pos(list: Seq<InputPair>, s: Sides)
    ensures
        psum(list, s) > 0 <==> exists|k: int| 0 <= k < list.len() && term(#[trigger] list[k], s) > 0,
    decreases list.len(),
{
    if list.len() > 0 {
        let rest = list.drop_last();
        lemma_psum_pos(rest, s);
        if psum(list, s) > 0 {
            if psum(rest, s) > 0 {
                let k = choose|k: int| 0 <= k < rest.len() && term(#[trigger] rest[k], s) > 0;
                assert(term(list[k], s) > 0);
            } else {
                assert(term(list[list.len() - 1], s) > 0);
            }
        }
        if exists|k: int| 0 <= k < list.len() && term(#[trigger] list[k], s) > 0 {
            let k = choose|k: int| 0 <= k < list.len() && term(#[trigger] list[k], s) > 0;
            if k < rest.len() {
                assert(term(rest[k], s) > 0);
            }
        }
    }
}

/// Both references of the pair hold.
pub open spec fn pair_accepts(d: Tdd, t: int, q: InputPair, x: Seq<bool>) -> bool {
    accepts(d, d.vtree.left_at(t), q.left.0 as int, x) && accepts(
        d,
        d.vtree.right_at(t),
        q.right.0 as int,
        x,
    )
}

/// A node holds where a pair of it does.
pub proof fn lemma_accepts_node(d: Tdd, t: int, i: int, x: Seq<bool>)
    requires
        plain(d),
        0 <= t < d.vtree.n(),
        !d.vtree.leaf_at(t),
        0 <= i < d.levels@[t].nodes@.len(),
    ensures
        accepts(d, t, i, x) <==> exists|k: int|
            0 <= k < d.levels@[t].pairs_at(i).len() && pair_accepts(
                d,
                t,
                #[trigger] d.levels@[t].pairs_at(i)[k],
                x,
            ),
{
    let vt = d.vt();
    let seed = pinned_seed(vt, pins_of(x), true);
    assert(vt.node_wf(t));
    let l = vt.left_at(t);
    let r = vt.right_at(t);
    assert(vt.node_wf(l) && vt.node_wf(r));
    assert(!d.levels@[t].marginal() && !d.levels@[l].marginal() && !d.levels@[r].marginal());
    lemma_col_internal(d.levels@, vt, seed, t);
    let s = sides(d.levels@, vt, seed, t);
    let list = d.levels@[t].pairs_at(i);
    lemma_psum_pos(list, s);
    assert forall|k: int| 0 <= k < list.len() implies (term(#[trigger] list[k], s) > 0)
        == pair_accepts(d, t, list[k], x) by {
        let a = ref_val(list[k].left.0, s.lm, s.lc);
        let b = ref_val(list[k].right.0, s.rm, s.rc);
        assert((a * b > 0) == (a > 0 && b > 0)) by (nonlinear_arith);
    }
    if accepts(d, t, i, x) {
        let k = choose|k: int| 0 <= k < list.len() && term(#[trigger] list[k], s) > 0;
        assert(pair_accepts(d, t, d.levels@[t].pairs_at(i)[k], x));
    }
    if exists|k: int|
        0 <= k < d.levels@[t].pairs_at(i).len() && pair_accepts(
            d,
            t,
            #[trigger] d.levels@[t].pairs_at(i)[k],
            x,
        ) {
        let k = choose|k: int|
            0 <= k < d.levels@[t].pairs_at(i).len() && pair_accepts(
                d,
                t,
                #[trigger] d.levels@[t].pairs_at(i)[k],
                x,
            );
        assert(term(list[k], s) > 0);
    }
}

/// A label holds where it is the constant or the literal of the value.
proof fn lemma_accepts_leaf(d: Tdd, t: int, i: int, x: Seq<bool>)
    requires
        plain(d),
        0 <= t < d.vtree.n(),
        d.vtree.leaf_at(t),
        0 <= i < LEAF_WIDTH,
        total_asg(*d.vtree, x),
    ensures
        accepts(d, t, i, x) <==> i == ONE_LEAF_RAW || (i == POS_LEAF_RAW) == x[d.vtree.var_at(t)],
{
    let vt = d.vt();
    assert(vt.node_wf(t));
    let v = vt.var_at(t);
    assert(pin_at(pins_of(x), v) == Some(x[v]));
    assert(LeafLabel::at(i) == LeafLabel::One || LeafLabel::at(i) == LeafLabel::Pos
        || LeafLabel::at(i) == LeafLabel::Neg);
}

/// What a node is depends on the variables below it alone.
pub proof fn lemma_accepts_local(d: Tdd, t: int, x: Seq<bool>, y: Seq<bool>)
    requires
        plain(d),
        0 <= t < d.vtree.n(),
        total_asg(*d.vtree, x),
        total_asg(*d.vtree, y),
        agree_below(*d.vtree, t, x, y),
    ensures
        forall|i: int| #[trigger] accepts(d, t, i, x) == accepts(d, t, i, y),
    decreases d.vtree.rank_at(t),
{
    let vt = d.vt();
    let sx = pinned_seed(vt, pins_of(x), true);
    let sy = pinned_seed(vt, pins_of(y), true);
    lemma_col_local(d, t, x, y);
    assert(col(d.levels@, vt, sx, t) == col(d.levels@, vt, sy, t));
}

proof fn lemma_col_local(d: Tdd, t: int, x: Seq<bool>, y: Seq<bool>)
    requires
        plain(d),
        0 <= t < d.vtree.n(),
        total_asg(*d.vtree, x),
        total_asg(*d.vtree, y),
        agree_below(*d.vtree, t, x, y),
    ensures
        col(d.levels@, *d.vtree, pinned_seed(*d.vtree, pins_of(x), true), t) == col(
            d.levels@,
            *d.vtree,
            pinned_seed(*d.vtree, pins_of(y), true),
            t,
        ),
    decreases d.vtree.rank_at(t),
{
    let vt = d.vt();
    let sx = pinned_seed(vt, pins_of(x), true);
    let sy = pinned_seed(vt, pins_of(y), true);
    assert(vt.node_wf(t));
    if vt.leaf_at(t) {
        let v = vt.var_at(t);
        assert(leaf_of(vt, v) == t);
        assert(below(vt, t, leaf_of(vt, v)));
        assert(x[v] == y[v]);
        assert(pin_at(pins_of(x), v) == pin_at(pins_of(y), v));
        assert(col(d.levels@, vt, sx, t) =~= col(d.levels@, vt, sy, t));
    } else {
        let l = vt.left_at(t);
        let r = vt.right_at(t);
        assert(vt.node_wf(l) && vt.node_wf(r));
        assert(!d.levels@[t].marginal());
        assert forall|v: int| 0 <= v < vt.num_vars_spec() && below(vt, l, leaf_of(vt, v)) implies
            #[trigger] x[v] == y[v] by {
            assert(below(vt, t, leaf_of(vt, v)));
        }
        assert forall|v: int| 0 <= v < vt.num_vars_spec() && below(vt, r, leaf_of(vt, v)) implies
            #[trigger] x[v] == y[v] by {
            assert(below(vt, t, leaf_of(vt, v)));
        }
        lemma_col_local(d, l, x, y);
        lemma_col_local(d, r, x, y);
        lemma_col_internal(d.levels@, vt, sx, t);
        lemma_col_internal(d.levels@, vt, sy, t);
        assert(sides(d.levels@, vt, sx, t) == sides(d.levels@, vt, sy, t));
        assert(col(d.levels@, vt, sx, t) =~= col(d.levels@, vt, sy, t));
    }
}

/// What lies below a child lies below its parent, and not below the child
/// beside it.
proof fn lemma_apart(vt: Vtree, t: int, u: int)
    requires
        vt.wf(),
        0 <= t < vt.n(),
        vt.parent_at(t) is Some,
        0 <= u < vt.n(),
        below(vt, t, u),
    ensures
        below(vt, vt.up(t), u),
        !below(vt, beside(vt, vt.up(t), t), u),
{
    lemma_parent(vt, t);
    let p = vt.up(t);
    assert(vt.node_wf(p));
    assert(vt.node_wf(vt.left_at(p)) && vt.node_wf(vt.right_at(p)));
    lemma_below_one(vt, p, u);
}

/// Assignments that agree outside the child agree below the one beside it, and
/// outside the parent.
proof fn lemma_outside(vt: Vtree, t: int, x: Seq<bool>, y: Seq<bool>)
    requires
        vt.wf(),
        0 <= t < vt.n(),
        vt.parent_at(t) is Some,
        agree_outside(vt, t, x, y),
    ensures
        agree_below(vt, beside(vt, vt.up(t), t), x, y),
        agree_outside(vt, vt.up(t), x, y),
{
    lemma_parent(vt, t);
    let p = vt.up(t);
    let s = beside(vt, p, t);
    assert forall|v: int| 0 <= v < vt.num_vars_spec() && below(vt, s, leaf_of(vt, v)) implies
        #[trigger] x[v] == y[v] by {
        lemma_apart(vt, s, leaf_of(vt, v));
    }
    assert forall|v: int| 0 <= v < vt.num_vars_spec() && !below(vt, p, leaf_of(vt, v)) implies
        #[trigger] x[v] == y[v] by {
        if below(vt, t, leaf_of(vt, v)) {
            lemma_apart(vt, t, leaf_of(vt, v));
        }
    }
}

/// A context depends on the variables outside alone.
proof fn lemma_leads_local(d: Tdd, t: int, i: int, x: Seq<bool>, y: Seq<bool>)
    requires
        plain(d),
        0 <= t < d.vtree.n(),
        total_asg(*d.vtree, x),
        total_asg(*d.vtree, y),
        agree_outside(*d.vtree, t, x, y),
        leads(d, t, i, x),
    ensures
        leads(d, t, i, y),
    decreases d.vtree.n() - d.vtree.rank_at(t),
{
    let vt = d.vt();
    if vt.parent_at(t) is Some {
        lemma_parent(vt, t);
        lemma_outside(vt, t, x, y);
        let p = vt.up(t);
        let s = beside(vt, p, t);
        let side = side_under(vt, p, t);
        lemma_accepts_local(d, s, x, y);
        let (n, k) = choose|n: int, k: int|
            0 <= n < d.levels@[p].nodes@.len() && 0 <= k < d.levels@[p].pairs_at(n).len()
                && side_ref(#[trigger] d.levels@[p].pairs_at(n)[k], side) == i && accepts(
                d,
                s,
                other_ref(d.levels@[p].pairs_at(n)[k], side) as int,
                x,
            ) && leads(d, p, n, x);
        lemma_leads_local(d, p, n, x, y);
        let q = d.levels@[p].pairs_at(n)[k];
        assert(accepts(d, s, other_ref(q, side) as int, x));
        assert(accepts(d, s, other_ref(q, side) as int, y));
        assert(side_ref(d.levels@[p].pairs_at(n)[k], side) == i);
    }
}

/// Mixed assignments agree with their two sources.
pub proof fn lemma_mixed(vt: Vtree, t: int, x: Seq<bool>, y: Seq<bool>)
    ensures
        total_asg(vt, mixed(vt, t, x, y)),
        agree_below(vt, t, x, mixed(vt, t, x, y)),
        agree_below(vt, t, mixed(vt, t, x, y), x),
        agree_outside(vt, t, y, mixed(vt, t, x, y)),
        agree_outside(vt, t, mixed(vt, t, x, y), y),
{
}

/// A name in a list is a node of the child, and counts as named there.
pub proof fn lemma_pair_named(d: Tdd, t: int, n: int, k: int)
    requires
        plain(d),
        0 <= t < d.vtree.n(),
        d.vtree.parent_at(t) is Some,
        0 <= n < d.levels@[d.vtree.up(t)].nodes@.len(),
        0 <= k < d.levels@[d.vtree.up(t)].pairs_at(n).len(),
    ensures
        ({
            let p = d.vtree.up(t);
            let q = d.levels@[p].pairs_at(n)[k];
            let side = side_under(*d.vtree, p, t);
            let s = beside(*d.vtree, p, t);
            &&& named(d, t, side_ref(q, side) as int)
            &&& named(d, s, other_ref(q, side) as int)
            &&& 0 <= side_ref(q, side) < eff_width(d.levels@, *d.vtree, t)
            &&& 0 <= other_ref(q, side) < eff_width(d.levels@, *d.vtree, s)
        }),
{
    let vt = d.vt();
    lemma_parent(vt, t);
    let p = vt.up(t);
    let s = beside(vt, p, t);
    let side = side_under(vt, p, t);
    let q = d.levels@[p].pairs_at(n)[k];
    assert(!d.levels@[p].marginal() && !d.levels@[t].marginal() && !d.levels@[s].marginal());
    assert(refs_ok(d.levels@, vt, p));
    assert(list_ok(d.levels@, vt, p, d.levels@[p].pairs_at(n)));
    assert(pair_ok(d.levels@, vt, p, d.levels@[p].pairs_at(n)[k]));
    assert(side_ref(d.levels@[p].pairs_at(n)[k], side_under(vt, p, s)) == other_ref(q, side));
}

/// What is named is a node.
pub proof fn lemma_named_width(d: Tdd, t: int, i: int)
    requires
        canonical(d),
        0 <= t < d.vtree.n(),
        named(d, t, i),
    ensures
        0 <= i < eff_width(d.levels@, *d.vtree, t),
        !d.vtree.leaf_at(t) ==> i < d.levels@[t].nodes@.len(),
{
    let vt = d.vt();
    assert(vt.node_wf(t));
    assert(!d.levels@[t].marginal());
    if vt.parent_at(t) is Some {
        let p = vt.up(t);
        let side = side_under(vt, p, t);
        let (n, k) = choose|n: int, k: int|
            0 <= n < d.levels@[p].nodes@.len() && 0 <= k < d.levels@[p].pairs_at(n).len()
                && side_ref(#[trigger] d.levels@[p].pairs_at(n)[k], side) == i;
        lemma_pair_named(d, t, n, k);
    }
}

/// An assignment leads to at most one named node of a level.
pub proof fn lemma_one_node(d: Tdd, t: int, i: int, j: int, x: Seq<bool>)
    requires
        canonical(d),
        0 <= t < d.vtree.n(),
        total_asg(*d.vtree, x),
        named(d, t, i),
        named(d, t, j),
        accepts(d, t, i, x),
        accepts(d, t, j, x),
    ensures
        i == j,
    decreases d.vtree.rank_at(t),
{
    let vt = d.vt();
    assert(vt.node_wf(t));
    lemma_named_width(d, t, i);
    lemma_named_width(d, t, j);
    if vt.leaf_at(t) {
        lemma_accepts_leaf(d, t, i, x);
        lemma_accepts_leaf(d, t, j, x);
        if i != j {
            assert(named(d, t, ONE_LEAF_RAW as int));
        }
    } else {
        let l = vt.left_at(t);
        let r = vt.right_at(t);
        assert(vt.node_wf(l) && vt.node_wf(r));
        lemma_accepts_node(d, t, i, x);
        lemma_accepts_node(d, t, j, x);
        let k = choose|k: int|
            0 <= k < d.levels@[t].pairs_at(i).len() && pair_accepts(
                d,
                t,
                #[trigger] d.levels@[t].pairs_at(i)[k],
                x,
            );
        let m = choose|m: int|
            0 <= m < d.levels@[t].pairs_at(j).len() && pair_accepts(
                d,
                t,
                #[trigger] d.levels@[t].pairs_at(j)[m],
                x,
            );
        lemma_pair_named(d, l, i, k);
        lemma_pair_named(d, l, j, m);
        let q = d.levels@[t].pairs_at(i)[k];
        let z = d.levels@[t].pairs_at(j)[m];
        lemma_one_node(d, l, q.left.0 as int, z.left.0 as int, x);
        lemma_one_node(d, r, q.right.0 as int, z.right.0 as int, x);
        assert(q == z);
    }
}

/// Some named node of the level holds and leads to the output.
pub open spec fn passes(d: Tdd, t: int, x: Seq<bool>) -> bool {
    exists|i: int| named(d, t, i) && accepts(d, t, i, x) && #[trigger] leads(d, t, i, x)
}

/// A model passes through every level, and nothing else does.
proof fn lemma_passes(d: Tdd, t: int, x: Seq<bool>)
    requires
        canonical(d),
        0 <= t < d.vtree.n(),
        total_asg(*d.vtree, x),
    ensures
        passes(d, t, x) <==> value_under(d, x) > 0,
    decreases d.vtree.n() - d.vtree.rank_at(t),
{
    let vt = d.vt();
    assert(vt.node_wf(t));
    if vt.parent_at(t) is None {
        let o = d.output.local.0 as int;
        assert(leads(d, t, o, x) && named(d, t, o));
        assert(accepts(d, t, o, x) <==> value_under(d, x) > 0);
        if passes(d, t, x) {
            let i = choose|i: int|
                named(d, t, i) && accepts(d, t, i, x) && #[trigger] leads(d, t, i, x);
            assert(i == o);
        }
    } else {
        lemma_parent(vt, t);
        let p = vt.up(t);
        let s = beside(vt, p, t);
        let side = side_under(vt, p, t);
        lemma_passes(d, p, x);
        if passes(d, p, x) {
            let n = choose|n: int|
                named(d, p, n) && accepts(d, p, n, x) && #[trigger] leads(d, p, n, x);
            lemma_named_width(d, p, n);
            lemma_accepts_node(d, p, n, x);
            let k = choose|k: int|
                0 <= k < d.levels@[p].pairs_at(n).len() && pair_accepts(
                    d,
                    p,
                    #[trigger] d.levels@[p].pairs_at(n)[k],
                    x,
                );
            lemma_pair_named(d, t, n, k);
            let i = side_ref(d.levels@[p].pairs_at(n)[k], side) as int;
            assert(leads(d, t, i, x));
        }
        if passes(d, t, x) {
            let i = choose|i: int|
                named(d, t, i) && accepts(d, t, i, x) && #[trigger] leads(d, t, i, x);
            let (n, k) = choose|n: int, k: int|
                0 <= n < d.levels@[p].nodes@.len() && 0 <= k < d.levels@[p].pairs_at(n).len()
                    && side_ref(#[trigger] d.levels@[p].pairs_at(n)[k], side) == i && accepts(
                    d,
                    s,
                    other_ref(d.levels@[p].pairs_at(n)[k], side) as int,
                    x,
                ) && leads(d, p, n, x);
            assert(pair_accepts(d, p, d.levels@[p].pairs_at(n)[k], x));
            lemma_accepts_node(d, p, n, x);
            assert(d.levels@[p].pairs_at(n).len() > 0 && named(d, p, n));
            assert(passes(d, p, x));
        }
    }
}

/// Every named node holds under some assignment.
pub proof fn lemma_some_accepts(d: Tdd, t: int, i: int) -> (x: Seq<bool>)
    requires
        canonical(d),
        0 <= t < d.vtree.n(),
        named(d, t, i),
    ensures
        total_asg(*d.vtree, x),
        accepts(d, t, i, x),
    decreases d.vtree.rank_at(t),
{
    let vt = d.vt();
    assert(vt.node_wf(t));
    lemma_named_width(d, t, i);
    if vt.leaf_at(t) {
        let x = Seq::new(vt.num_vars_spec() as nat, |v: int| i == POS_LEAF_RAW);
        lemma_accepts_leaf(d, t, i, x);
        x
    } else {
        let l = vt.left_at(t);
        let r = vt.right_at(t);
        assert(vt.node_wf(l) && vt.node_wf(r));
        assert(d.levels@[t].pairs_at(i).len() > 0);
        let q = d.levels@[t].pairs_at(i)[0];
        lemma_pair_named(d, l, i, 0);
        let xl = lemma_some_accepts(d, l, q.left.0 as int);
        let xr = lemma_some_accepts(d, r, q.right.0 as int);
        let x = mixed(vt, l, xl, xr);
        lemma_mixed(vt, l, xl, xr);
        lemma_outside(vt, l, xr, x);
        lemma_accepts_local(d, l, xl, x);
        lemma_accepts_local(d, r, xr, x);
        assert(accepts(d, l, q.left.0 as int, xl) && accepts(d, r, q.right.0 as int, xr));
        assert(pair_accepts(d, t, d.levels@[t].pairs_at(i)[0], x));
        lemma_accepts_node(d, t, i, x);
        x
    }
}

/// Every named node leads to the output under some assignment.
proof fn lemma_some_leads(d: Tdd, t: int, i: int) -> (x: Seq<bool>)
    requires
        canonical(d),
        0 <= t < d.vtree.n(),
        named(d, t, i),
    ensures
        total_asg(*d.vtree, x),
        leads(d, t, i, x),
    decreases d.vtree.n() - d.vtree.rank_at(t),
{
    let vt = d.vt();
    assert(vt.node_wf(t));
    if vt.parent_at(t) is None {
        Seq::new(vt.num_vars_spec() as nat, |v: int| true)
    } else {
        lemma_parent(vt, t);
        let p = vt.up(t);
        let s = beside(vt, p, t);
        let side = side_under(vt, p, t);
        let (n, k) = choose|n: int, k: int|
            0 <= n < d.levels@[p].nodes@.len() && 0 <= k < d.levels@[p].pairs_at(n).len()
                && side_ref(#[trigger] d.levels@[p].pairs_at(n)[k], side) == i;
        lemma_pair_named(d, t, n, k);
        let o = other_ref(d.levels@[p].pairs_at(n)[k], side) as int;
        let xs = lemma_some_accepts(d, s, o);
        assert(d.levels@[p].pairs_at(n).len() > 0 && named(d, p, n));
        let y = lemma_some_leads(d, p, n);
        let x = mixed(vt, s, xs, y);
        lemma_mixed(vt, s, xs, y);
        lemma_outside(vt, s, y, x);
        lemma_accepts_local(d, s, xs, x);
        assert(accepts(d, s, o, xs));
        assert(accepts(d, s, o, x));
        lemma_leads_local(d, p, n, y, x);
        x
    }
}

/// Where the partner of a pair holds, the context of the node is that of the
/// pair's parent.
proof fn lemma_leads_through(d: Tdd, t: int, n: int, k: int, x: Seq<bool>)
    requires
        canonical(d),
        0 <= t < d.vtree.n(),
        d.vtree.parent_at(t) is Some,
        0 <= n < d.levels@[d.vtree.up(t)].nodes@.len(),
        0 <= k < d.levels@[d.vtree.up(t)].pairs_at(n).len(),
        total_asg(*d.vtree, x),
        ({
            let p = d.vtree.up(t);
            accepts(
                d,
                beside(*d.vtree, p, t),
                other_ref(d.levels@[p].pairs_at(n)[k], side_under(*d.vtree, p, t)) as int,
                x,
            )
        }),
    ensures
        ({
            let p = d.vtree.up(t);
            leads(
                d,
                t,
                side_ref(d.levels@[p].pairs_at(n)[k], side_under(*d.vtree, p, t)) as int,
                x,
            ) == leads(d, p, n, x)
        }),
{
    let vt = d.vt();
    lemma_parent(vt, t);
    let p = vt.up(t);
    let s = beside(vt, p, t);
    let side = side_under(vt, p, t);
    let q = d.levels@[p].pairs_at(n)[k];
    let i = side_ref(q, side) as int;
    let o = other_ref(q, side) as int;
    lemma_pair_named(d, t, n, k);
    if leads(d, t, i, x) {
        let (n2, k2) = choose|n2: int, k2: int|
            0 <= n2 < d.levels@[p].nodes@.len() && 0 <= k2 < d.levels@[p].pairs_at(n2).len()
                && side_ref(#[trigger] d.levels@[p].pairs_at(n2)[k2], side) == i && accepts(
                d,
                s,
                other_ref(d.levels@[p].pairs_at(n2)[k2], side) as int,
                x,
            ) && leads(d, p, n2, x);
        lemma_pair_named(d, t, n2, k2);
        lemma_one_node(d, s, o, other_ref(d.levels@[p].pairs_at(n2)[k2], side) as int, x);
        assert(d.levels@[p].pairs_at(n2)[k2] == d.levels@[p].pairs_at(n)[k]);
    }
}

/// The partners of a node in a list without repetitions.
pub proof fn lemma_sibs(list: Seq<InputPair>, side: ChildSide, i: int)
    requires
        forall|k: int, m: int| 0 <= k < m < list.len() ==> list[k] != list[m],
    ensures
        sibs(list, side, i).no_duplicates(),
        forall|o: u32|
            #[trigger] sibs(list, side, i).contains(o) <==> exists|k: int|
                0 <= k < list.len() && side_ref(#[trigger] list[k], side) == i && other_ref(
                    list[k],
                    side,
                ) == o,
    decreases list.len(),
{
    if list.len() > 0 {
        let rest = list.drop_last();
        let p = list.last();
        assert forall|k: int, m: int| 0 <= k < m < rest.len() implies rest[k] != rest[m] by {
            assert(rest[k] == list[k] && rest[m] == list[m]);
        }
        lemma_sibs(rest, side, i);
        let sr = sibs(rest, side, i);
        let sl = sibs(list, side, i);
        assert(list[list.len() - 1] == p);
        if side_ref(p, side) == i {
            assert(!sr.contains(other_ref(p, side))) by {
                if sr.contains(other_ref(p, side)) {
                    let k = choose|k: int|
                        0 <= k < rest.len() && side_ref(#[trigger] rest[k], side) == i
                            && other_ref(rest[k], side) == other_ref(p, side);
                    assert(rest[k] == p);
                    assert(list[k] == list[list.len() - 1]);
                }
            }
        }
        assert forall|o: u32| #[trigger] sl.contains(o) <==> exists|k: int|
            0 <= k < list.len() && side_ref(#[trigger] list[k], side) == i && other_ref(
                list[k],
                side,
            ) == o by {
            if sl.contains(o) {
                let j = choose|j: int| 0 <= j < sl.len() && sl[j] == o;
                if j < sr.len() {
                    assert(sr[j] == o);
                    assert(sr.contains(o));
                    let k = choose|k: int|
                        0 <= k < rest.len() && side_ref(#[trigger] rest[k], side) == i
                            && other_ref(rest[k], side) == o;
                    assert(list[k] == rest[k]);
                } else {
                    assert(side_ref(list[list.len() - 1], side) == i);
                }
            }
            if exists|k: int|
                0 <= k < list.len() && side_ref(#[trigger] list[k], side) == i && other_ref(
                    list[k],
                    side,
                ) == o {
                let k = choose|k: int|
                    0 <= k < list.len() && side_ref(#[trigger] list[k], side) == i && other_ref(
                        list[k],
                        side,
                    ) == o;
                if k < rest.len() {
                    assert(rest[k] == list[k]);
                    assert(sr.contains(o));
                    let j = choose|j: int| 0 <= j < sr.len() && sr[j] == o;
                    assert(sl[j] == o);
                } else {
                    assert(sl[sl.len() - 1] == o);
                }
            }
        }
    }
}

/// Sequences without repetitions that hold the same are permutations.
pub proof fn lemma_same_elements(a: Seq<u32>, b: Seq<u32>)
    requires
        a.no_duplicates(),
        b.no_duplicates(),
        forall|x: u32| a.contains(x) == b.contains(x),
    ensures
        a.to_multiset() == b.to_multiset(),
{
    broadcast use vstd::seq_lib::group_to_multiset_ensures;

    a.lemma_multiset_has_no_duplicates();
    b.lemma_multiset_has_no_duplicates();
    assert forall|x: u32| #[trigger] a.to_multiset().count(x) == b.to_multiset().count(x) by {
        assert(a.contains(x) == b.contains(x));
        assert(a.to_multiset().contains(x) == (a.to_multiset().count(x) > 0));
        assert(b.to_multiset().contains(x) == (b.to_multiset().count(x) > 0));
    }
    assert(a.to_multiset() =~= b.to_multiset());
}

/// A partner of one of two nodes with the same context is a partner of the
/// other, in the same list.
proof fn lemma_shared_partner(d: Tdd, t: int, i: int, j: int, n: int, k: int) -> (m: int)
    requires
        canonical(d),
        0 <= t < d.vtree.n(),
        d.vtree.parent_at(t) is Some,
        same_context(d, d, t, i, j),
        0 <= n < d.levels@[d.vtree.up(t)].nodes@.len(),
        0 <= k < d.levels@[d.vtree.up(t)].pairs_at(n).len(),
        side_ref(
            d.levels@[d.vtree.up(t)].pairs_at(n)[k],
            side_under(*d.vtree, d.vtree.up(t), t),
        ) == i,
    ensures
        ({
            let p = d.vtree.up(t);
            let side = side_under(*d.vtree, p, t);
            let list = d.levels@[p].pairs_at(n);
            &&& 0 <= m < list.len()
            &&& side_ref(list[m], side) == j
            &&& other_ref(list[m], side) == other_ref(list[k], side)
        }),
    decreases d.vtree.n() - d.vtree.rank_at(t), 0int,
{
    let vt = d.vt();
    lemma_parent(vt, t);
    let p = vt.up(t);
    let s = beside(vt, p, t);
    let side = side_under(vt, p, t);
    let o = other_ref(d.levels@[p].pairs_at(n)[k], side) as int;
    lemma_pair_named(d, t, n, k);
    assert(d.levels@[p].pairs_at(n).len() > 0 && named(d, p, n));
    let xs = lemma_some_accepts(d, s, o);
    let y = lemma_some_leads(d, p, n);
    let z = mixed(vt, s, xs, y);
    lemma_mixed(vt, s, xs, y);
    lemma_outside(vt, s, y, z);
    lemma_accepts_local(d, s, xs, z);
    assert(accepts(d, s, o, xs));
    assert(accepts(d, s, o, z));
    lemma_leads_local(d, p, n, y, z);
    lemma_leads_through(d, t, n, k, z);
    assert(leads(d, t, i, z) == leads(d, t, j, z));
    let (n2, m) = choose|n2: int, m: int|
        0 <= n2 < d.levels@[p].nodes@.len() && 0 <= m < d.levels@[p].pairs_at(n2).len()
            && side_ref(#[trigger] d.levels@[p].pairs_at(n2)[m], side) == j && accepts(
            d,
            s,
            other_ref(d.levels@[p].pairs_at(n2)[m], side) as int,
            z,
        ) && leads(d, p, n2, z);
    lemma_pair_named(d, t, n2, m);
    let o2 = other_ref(d.levels@[p].pairs_at(n2)[m], side) as int;
    lemma_one_node(d, s, o, o2, z);
    assert(d.levels@[p].pairs_at(n2).len() > 0 && named(d, p, n2));
    assert forall|u: Seq<bool>| total_asg(vt, u) implies #[trigger] leads(d, p, n, u) == leads(
        d,
        p,
        n2,
        u,
    ) by {
        let w = mixed(vt, s, xs, u);
        lemma_mixed(vt, s, xs, u);
        lemma_outside(vt, s, u, w);
        lemma_outside(vt, s, w, u);
        lemma_accepts_local(d, s, xs, w);
        assert(accepts(d, s, o, xs));
        assert(accepts(d, s, o, w));
        lemma_leads_through(d, t, n, k, w);
        lemma_leads_through(d, t, n2, m, w);
        assert(leads(d, t, i, w) == leads(d, t, j, w));
        if leads(d, p, n, u) {
            lemma_leads_local(d, p, n, u, w);
            lemma_leads_local(d, p, n2, w, u);
        }
        if leads(d, p, n2, u) {
            lemma_leads_local(d, p, n2, u, w);
            lemma_leads_local(d, p, n, w, u);
        }
    }
    lemma_context_tells(d, p, n, n2);
    m
}

/// Named nodes with the same context are the same node.
proof fn lemma_context_tells(d: Tdd, t: int, i: int, j: int)
    requires
        canonical(d),
        0 <= t < d.vtree.n(),
        named(d, t, i),
        named(d, t, j),
        same_context(d, d, t, i, j),
    ensures
        i == j,
    decreases d.vtree.n() - d.vtree.rank_at(t), 1int,
{
    let vt = d.vt();
    assert(vt.node_wf(t));
    if vt.parent_at(t) is Some && i != j {
        lemma_parent(vt, t);
        let p = vt.up(t);
        let side = side_under(vt, p, t);
        let level = d.levels@[p];
        lemma_named_width(d, t, i);
        lemma_named_width(d, t, j);
        assert(same_context(d, d, t, j, i)) by {
            assert forall|x: Seq<bool>| total_asg(vt, x) implies #[trigger] leads(d, t, j, x)
                == leads(d, t, i, x) by {
                assert(leads(d, t, i, x) == leads(d, t, j, x));
            }
        }
        assert(twins(level, side, i, j)) by {
            assert forall|n: int| 0 <= n < level.nodes@.len() implies sibs(
                #[trigger] level.pairs_at(n),
                side,
                i,
            ).to_multiset() == sibs(level.pairs_at(n), side, j).to_multiset() by {
                let list = level.pairs_at(n);
                assert forall|k: int, m: int| 0 <= k < m < list.len() implies list[k]
                    != list[m] by {
                    if list[k] == list[m] {
                        assert(d.levels@[p].pairs_at(n)[k] == d.levels@[p].pairs_at(n)[m]);
                    }
                }
                lemma_sibs(list, side, i);
                lemma_sibs(list, side, j);
                assert forall|o: u32| sibs(list, side, i).contains(o) == sibs(
                    list,
                    side,
                    j,
                ).contains(o) by {
                    if sibs(list, side, i).contains(o) {
                        let k = choose|k: int|
                            0 <= k < list.len() && side_ref(#[trigger] list[k], side) == i
                                && other_ref(list[k], side) == o;
                        let m = lemma_shared_partner(d, t, i, j, n, k);
                        assert(side_ref(list[m], side) == j);
                    }
                    if sibs(list, side, j).contains(o) {
                        let k = choose|k: int|
                            0 <= k < list.len() && side_ref(#[trigger] list[k], side) == j
                                && other_ref(list[k], side) == o;
                        let m = lemma_shared_partner(d, t, j, i, n, k);
                        assert(side_ref(list[m], side) == i);
                    }
                }
                lemma_same_elements(sibs(list, side, i), sibs(list, side, j));
            }
        }
    }
}

/// The two diagrams have the same vtree and the same models.
pub open spec fn same_models(a: Tdd, b: Tdd) -> bool {
    &&& b.vtree == a.vtree
    &&& forall|x: Seq<bool>|
        total_asg(*a.vtree, x) ==> (#[trigger] value_under(a, x) > 0 <==> value_under(b, x) > 0)
}

/// The named node of `b` that stands for node `i` of `a`.
pub open spec fn counterpart(a: Tdd, b: Tdd, t: int, i: int) -> int {
    choose|j: int| #[trigger] named(b, t, j) && same_context(a, b, t, i, j)
}

/// Node `n` has the pair of `l` and `r`.
pub open spec fn has_pair(d: Tdd, t: int, n: int, l: int, r: int) -> bool {
    exists|k: int|
        0 <= k < d.levels@[t].pairs_at(n).len() && (#[trigger] d.levels@[t].pairs_at(n)[k]).left.0
            == l && d.levels@[t].pairs_at(n)[k].right.0 == r
}

/// Where a node holds under `x`, the other diagram has a node with its context
/// that holds under `x`.
proof fn lemma_meets(a: Tdd, b: Tdd, t: int, i: int, x: Seq<bool>) -> (j: int)
    requires
        canonical(a),
        canonical(b),
        same_models(a, b),
        0 <= t < a.vtree.n(),
        named(a, t, i),
        total_asg(*a.vtree, x),
        accepts(a, t, i, x),
    ensures
        named(b, t, j),
        accepts(b, t, j, x),
        same_context(a, b, t, i, j),
{
    let vt = a.vt();
    let y = lemma_some_leads(a, t, i);
    let z = mixed(vt, t, x, y);
    lemma_mixed(vt, t, x, y);
    lemma_accepts_local(a, t, x, z);
    assert(accepts(a, t, i, x) == accepts(a, t, i, z));
    lemma_leads_local(a, t, i, y, z);
    assert(passes(a, t, z));
    lemma_passes(a, t, z);
    assert(value_under(a, z) > 0 <==> value_under(b, z) > 0);
    lemma_passes(b, t, z);
    let j = choose|j: int| named(b, t, j) && accepts(b, t, j, z) && #[trigger] leads(b, t, j, z);
    lemma_accepts_local(b, t, z, x);
    assert(accepts(b, t, j, z) == accepts(b, t, j, x));
    assert forall|u: Seq<bool>| total_asg(vt, u) implies #[trigger] leads(a, t, i, u) == leads(
        b,
        t,
        j,
        u,
    ) by {
        let w = mixed(vt, t, x, u);
        lemma_mixed(vt, t, x, u);
        lemma_accepts_local(a, t, x, w);
        lemma_accepts_local(b, t, x, w);
        assert(accepts(a, t, i, x) == accepts(a, t, i, w));
        assert(accepts(b, t, j, x) == accepts(b, t, j, w));
        lemma_passes(a, t, w);
        lemma_passes(b, t, w);
        assert(value_under(a, w) > 0 <==> value_under(b, w) > 0);
        if leads(a, t, i, u) {
            lemma_leads_local(a, t, i, u, w);
            assert(passes(a, t, w));
            let j2 = choose|j2: int|
                named(b, t, j2) && accepts(b, t, j2, w) && #[trigger] leads(b, t, j2, w);
            lemma_one_node(b, t, j, j2, w);
            lemma_leads_local(b, t, j, w, u);
        }
        if leads(b, t, j, u) {
            lemma_leads_local(b, t, j, u, w);
            assert(passes(b, t, w));
            let i2 = choose|i2: int|
                named(a, t, i2) && accepts(a, t, i2, w) && #[trigger] leads(a, t, i2, w);
            lemma_one_node(a, t, i, i2, w);
            lemma_leads_local(a, t, i, w, u);
        }
    }
    j
}

/// A shared context is shared by no other node.
proof fn lemma_one_counterpart(a: Tdd, b: Tdd, t: int, i: int, j: int, j2: int)
    requires
        canonical(b),
        b.vtree == a.vtree,
        0 <= t < a.vtree.n(),
        named(b, t, j),
        named(b, t, j2),
        same_context(a, b, t, i, j),
        same_context(a, b, t, i, j2),
    ensures
        j == j2,
{
    assert forall|x: Seq<bool>| total_asg(*b.vtree, x) implies #[trigger] leads(b, t, j, x)
        == leads(b, t, j2, x) by {
        assert(leads(a, t, i, x) == leads(b, t, j, x));
        assert(leads(a, t, i, x) == leads(b, t, j2, x));
    }
    lemma_context_tells(b, t, j, j2);
}

/// Contexts are shared both ways.
proof fn lemma_context_back(a: Tdd, b: Tdd, t: int, i: int, j: int)
    requires
        b.vtree == a.vtree,
        same_context(a, b, t, i, j),
    ensures
        same_context(b, a, t, j, i),
{
    assert forall|x: Seq<bool>| total_asg(*b.vtree, x) implies #[trigger] leads(b, t, j, x)
        == leads(a, t, i, x) by {
        assert(leads(a, t, i, x) == leads(b, t, j, x));
    }
}

/// Every named node has its counterpart.
proof fn lemma_counterpart(a: Tdd, b: Tdd, t: int, i: int)
    requires
        canonical(a),
        canonical(b),
        same_models(a, b),
        0 <= t < a.vtree.n(),
        named(a, t, i),
    ensures
        named(b, t, counterpart(a, b, t, i)),
        same_context(a, b, t, i, counterpart(a, b, t, i)),
        forall|x: Seq<bool>|
            total_asg(*a.vtree, x) && accepts(a, t, i, x) ==> #[trigger] accepts(
                b,
                t,
                counterpart(a, b, t, i),
                x,
            ),
{
    let c = counterpart(a, b, t, i);
    let x0 = lemma_some_accepts(a, t, i);
    let j0 = lemma_meets(a, b, t, i, x0);
    assert(named(b, t, j0) && same_context(a, b, t, i, j0));
    assert forall|x: Seq<bool>| total_asg(*a.vtree, x) && accepts(
        a,
        t,
        i,
        x,
    ) implies #[trigger] accepts(b, t, c, x) by {
        let j = lemma_meets(a, b, t, i, x);
        lemma_one_counterpart(a, b, t, i, c, j);
    }
}

/// The counterpart of the counterpart is the node itself.
proof fn lemma_counterpart_back(a: Tdd, b: Tdd, t: int, i: int)
    requires
        canonical(a),
        canonical(b),
        same_models(a, b),
        0 <= t < a.vtree.n(),
        named(a, t, i),
    ensures
        counterpart(b, a, t, counterpart(a, b, t, i)) == i,
{
    let j = counterpart(a, b, t, i);
    lemma_counterpart(a, b, t, i);
    lemma_context_back(a, b, t, i, j);
    lemma_same_models_back(a, b);
    lemma_counterpart(b, a, t, j);
    lemma_one_counterpart(b, a, t, j, counterpart(b, a, t, j), i);
}

proof fn lemma_same_models_back(a: Tdd, b: Tdd)
    requires
        same_models(a, b),
    ensures
        same_models(b, a),
{
    assert forall|x: Seq<bool>| total_asg(*b.vtree, x) implies (#[trigger] value_under(b, x) > 0
        <==> value_under(a, x) > 0) by {
        assert(value_under(a, x) > 0 <==> value_under(b, x) > 0);
    }
}

/// The counterparts of a node's pair stand in the list of its counterpart.
proof fn lemma_pair_kept(a: Tdd, b: Tdd, t: int, n: int, l: int, r: int)
    requires
        canonical(a),
        canonical(b),
        same_models(a, b),
        0 <= t < a.vtree.n(),
        !a.vtree.leaf_at(t),
        0 <= n < a.levels@[t].nodes@.len(),
        has_pair(a, t, n, l, r),
    ensures
        has_pair(
            b,
            t,
            counterpart(a, b, t, n),
            counterpart(a, b, a.vtree.left_at(t), l),
            counterpart(a, b, a.vtree.right_at(t), r),
        ),
{
    let vt = a.vt();
    assert(vt.node_wf(t));
    let lt = vt.left_at(t);
    let rt = vt.right_at(t);
    assert(vt.node_wf(lt) && vt.node_wf(rt));
    let k = choose|k: int|
        0 <= k < a.levels@[t].pairs_at(n).len() && (#[trigger] a.levels@[t].pairs_at(n)[k]).left.0
            == l && a.levels@[t].pairs_at(n)[k].right.0 == r;
    lemma_pair_named(a, lt, n, k);
    assert(a.levels@[t].pairs_at(n).len() > 0 && named(a, t, n));
    let xl = lemma_some_accepts(a, lt, l);
    let xr = lemma_some_accepts(a, rt, r);
    let x = mixed(vt, lt, xl, xr);
    lemma_mixed(vt, lt, xl, xr);
    lemma_outside(vt, lt, xr, x);
    lemma_accepts_local(a, lt, xl, x);
    lemma_accepts_local(a, rt, xr, x);
    assert(accepts(a, lt, l, xl) && accepts(a, rt, r, xr));
    assert(accepts(a, lt, l, x) && accepts(a, rt, r, x));
    assert(pair_accepts(a, t, a.levels@[t].pairs_at(n)[k], x));
    lemma_accepts_node(a, t, n, x);
    lemma_counterpart(a, b, t, n);
    lemma_counterpart(a, b, lt, l);
    lemma_counterpart(a, b, rt, r);
    let m = counterpart(a, b, t, n);
    assert(accepts(b, t, m, x));
    lemma_named_width(b, t, m);
    lemma_accepts_node(b, t, m, x);
    let k2 = choose|k2: int|
        0 <= k2 < b.levels@[t].pairs_at(m).len() && pair_accepts(
            b,
            t,
            #[trigger] b.levels@[t].pairs_at(m)[k2],
            x,
        );
    lemma_pair_named(b, lt, m, k2);
    let q = b.levels@[t].pairs_at(m)[k2];
    assert(accepts(b, lt, counterpart(a, b, lt, l), x));
    assert(accepts(b, rt, counterpart(a, b, rt, r), x));
    lemma_one_node(b, lt, q.left.0 as int, counterpart(a, b, lt, l), x);
    lemma_one_node(b, rt, q.right.0 as int, counterpart(a, b, rt, r), x);
}

/// A named label is its own counterpart.
proof fn lemma_label_kept(a: Tdd, b: Tdd, t: int, i: int)
    requires
        canonical(a),
        canonical(b),
        same_models(a, b),
        0 <= t < a.vtree.n(),
        a.vtree.leaf_at(t),
        named(a, t, i),
    ensures
        counterpart(a, b, t, i) == i,
{
    let vt = a.vt();
    assert(vt.node_wf(t));
    let j = counterpart(a, b, t, i);
    lemma_counterpart(a, b, t, i);
    lemma_same_models_back(a, b);
    lemma_counterpart(b, a, t, j);
    lemma_counterpart_back(a, b, t, i);
    lemma_named_width(a, t, i);
    lemma_named_width(b, t, j);
    let yes = Seq::new(vt.num_vars_spec() as nat, |v: int| true);
    let no = Seq::new(vt.num_vars_spec() as nat, |v: int| false);
    lemma_accepts_leaf(a, t, i, yes);
    lemma_accepts_leaf(a, t, i, no);
    lemma_accepts_leaf(b, t, j, yes);
    lemma_accepts_leaf(b, t, j, no);
    assert(accepts(a, t, i, yes) == accepts(b, t, j, yes));
    assert(accepts(a, t, i, no) == accepts(b, t, j, no));
}

/// The two diagrams are the same up to the numbering `f` of nodes and the
/// order of lists.
pub open spec fn same_diagram(a: Tdd, b: Tdd, f: spec_fn(int, int) -> int) -> bool {
    &&& f(a.output.vtree.0 as int, a.output.local.0 as int) == b.output.local.0
    &&& forall|t: int|
        0 <= t < a.vtree.n() && !a.vtree.leaf_at(t) ==> (#[trigger] b.levels@[t]).nodes@.len()
            == a.levels@[t].nodes@.len()
    &&& forall|t: int, i: int|
        0 <= t < a.vtree.n() && !a.vtree.leaf_at(t) && 0 <= i < a.levels@[t].nodes@.len() ==> 0
            <= #[trigger] f(t, i) < b.levels@[t].nodes@.len()
    &&& forall|t: int, i: int, j: int|
        0 <= t < a.vtree.n() && !a.vtree.leaf_at(t) && 0 <= i < a.levels@[t].nodes@.len() && 0 <= j
            < a.levels@[t].nodes@.len() && #[trigger] f(t, i) == #[trigger] f(t, j) ==> i == j
    &&& forall|t: int, i: int|
        0 <= t < a.vtree.n() && a.vtree.leaf_at(t) && #[trigger] named(a, t, i) ==> f(t, i) == i
    &&& forall|t: int, n: int, l: int, r: int|
        0 <= t < a.vtree.n() && !a.vtree.leaf_at(t) && 0 <= n < a.levels@[t].nodes@.len() && named(
            a,
            a.vtree.left_at(t),
            l,
        ) && named(a, a.vtree.right_at(t), r) ==> #[trigger] has_pair(a, t, n, l, r) == has_pair(
            b,
            t,
            f(t, n),
            f(a.vtree.left_at(t), l),
            f(a.vtree.right_at(t), r),
        )
}

/// The numbers below `n` map one to one to numbers below `m`.
pub proof fn lemma_injection(f: spec_fn(int) -> int, n: nat, m: nat)
    requires
        forall|i: int| 0 <= i < n ==> 0 <= #[trigger] f(i) < m,
        forall|i: int, j: int| 0 <= i < n && 0 <= j < n && #[trigger] f(i) == #[trigger] f(j)
            ==> i == j,
    ensures
        n <= m,
{
    let dom = vstd::set_lib::set_int_range(0, n as int);
    let img = dom.map(f);
    vstd::set_lib::lemma_int_range(0, n as int);
    vstd::set_lib::lemma_int_range(0, m as int);
    assert(vstd::relations::injective_on(f, dom)) by {
        assert forall|i: int, j: int|
            dom.contains(i) && dom.contains(j) && #[trigger] f(i) == #[trigger] f(j) implies i
            == j by {}
    }
    vstd::set_lib::lemma_map_size(dom, img, f);
    vstd::set_lib::lemma_len_subset(img, vstd::set_lib::set_int_range(0, m as int));
}

/// Counterparts are nodes, and different nodes have different ones.
proof fn lemma_counterparts(a: Tdd, b: Tdd, t: int)
    requires
        canonical(a),
        canonical(b),
        same_models(a, b),
        0 <= t < a.vtree.n(),
        !a.vtree.leaf_at(t),
    ensures
        forall|i: int|
            0 <= i < a.levels@[t].nodes@.len() ==> 0 <= #[trigger] counterpart(a, b, t, i)
                < b.levels@[t].nodes@.len(),
        forall|i: int, j: int|
            0 <= i < a.levels@[t].nodes@.len() && 0 <= j < a.levels@[t].nodes@.len()
                && #[trigger] counterpart(a, b, t, i) == #[trigger] counterpart(a, b, t, j) ==> i
                == j,
        a.levels@[t].nodes@.len() <= b.levels@[t].nodes@.len(),
{
    let n = a.levels@[t].nodes@.len();
    let m = b.levels@[t].nodes@.len();
    let f = |i: int| counterpart(a, b, t, i);
    assert forall|i: int| 0 <= i < n implies 0 <= #[trigger] f(i) < m && named(a, t, i)
        && counterpart(b, a, t, f(i)) == i by {
        assert(a.levels@[t].pairs_at(i).len() > 0 && named(a, t, i));
        lemma_counterpart(a, b, t, i);
        lemma_counterpart_back(a, b, t, i);
        lemma_named_width(b, t, f(i));
    }
    assert forall|i: int| 0 <= i < n implies 0 <= #[trigger] counterpart(a, b, t, i) < m by {
        assert(0 <= f(i) < m);
    }
    assert forall|i: int, j: int|
        0 <= i < n && 0 <= j < n && #[trigger] counterpart(a, b, t, i) == #[trigger] counterpart(
            a,
            b,
            t,
            j,
        ) implies i == j by {
        assert(counterpart(b, a, t, f(i)) == i);
        assert(counterpart(b, a, t, f(j)) == j);
    }
    assert forall|i: int, j: int|
        0 <= i < n && 0 <= j < n && #[trigger] f(i) == #[trigger] f(j) implies i == j by {
        assert(counterpart(a, b, t, i) == counterpart(a, b, t, j));
    }
    lemma_injection(f, n, m);
}

/// Canonicity: two diagrams in canonical form over one vtree that have the same
/// models are the same, up to the numbering of nodes and the order of lists.
pub proof fn law_canonical_form_is_unique(a: Tdd, b: Tdd)
    requires
        canonical(a),
        canonical(b),
        same_models(a, b),
    ensures
        exists|f: spec_fn(int, int) -> int| #[trigger] same_diagram(a, b, f),
{
    let vt = a.vt();
    let f = |t: int, i: int| counterpart(a, b, t, i);
    lemma_same_models_back(a, b);
    let o = a.output.vtree.0 as int;
    assert(vt.node_wf(o));
    assert(named(a, o, a.output.local.0 as int));
    lemma_counterpart(a, b, o, a.output.local.0 as int);
    assert forall|t: int| 0 <= t < vt.n() && !vt.leaf_at(t) implies (
    #[trigger] b.levels@[t]).nodes@.len() == a.levels@[t].nodes@.len() by {
        lemma_counterparts(a, b, t);
        lemma_counterparts(b, a, t);
    }
    assert forall|t: int, i: int|
        0 <= t < vt.n() && !vt.leaf_at(t) && 0 <= i < a.levels@[t].nodes@.len() implies 0
        <= #[trigger] f(t, i) < b.levels@[t].nodes@.len() by {
        lemma_counterparts(a, b, t);
        assert(0 <= counterpart(a, b, t, i) < b.levels@[t].nodes@.len());
    }
    assert forall|t: int, i: int, j: int|
        0 <= t < vt.n() && !vt.leaf_at(t) && 0 <= i < a.levels@[t].nodes@.len() && 0 <= j
            < a.levels@[t].nodes@.len() && #[trigger] f(t, i) == #[trigger] f(t, j) implies i
        == j by {
        lemma_counterparts(a, b, t);
        assert(counterpart(a, b, t, i) == counterpart(a, b, t, j));
    }
    assert forall|t: int, i: int|
        0 <= t < vt.n() && vt.leaf_at(t) && #[trigger] named(a, t, i) implies f(t, i) == i by {
        lemma_label_kept(a, b, t, i);
    }
    assert forall|t: int, n: int, l: int, r: int|
        0 <= t < vt.n() && !vt.leaf_at(t) && 0 <= n < a.levels@[t].nodes@.len() && named(
            a,
            vt.left_at(t),
            l,
        ) && named(a, vt.right_at(t), r) implies #[trigger] has_pair(a, t, n, l, r) == has_pair(
        b,
        t,
        f(t, n),
        f(vt.left_at(t), l),
        f(vt.right_at(t), r),
    ) by {
        let lt = vt.left_at(t);
        let rt = vt.right_at(t);
        assert(vt.node_wf(t));
        assert(vt.node_wf(lt) && vt.node_wf(rt));
        assert(a.levels@[t].pairs_at(n).len() > 0 && named(a, t, n));
        lemma_counterpart_back(a, b, t, n);
        lemma_counterpart_back(a, b, lt, l);
        lemma_counterpart_back(a, b, rt, r);
        if has_pair(a, t, n, l, r) {
            lemma_pair_kept(a, b, t, n, l, r);
        }
        if has_pair(b, t, f(t, n), f(lt, l), f(rt, r)) {
            lemma_counterpart(a, b, t, n);
            lemma_named_width(b, t, f(t, n));
            lemma_pair_kept(b, a, t, f(t, n), f(lt, l), f(rt, r));
        }
    }
    assert(same_diagram(a, b, f));
}

/// The place of pair `k` of node `n` when the lists of a level stand one behind
/// the other.
spec fn place(level: TddLevel, n: int, k: int) -> int {
    level_pairs(level, n) + k
}

/// Pair `k` of node `n` is at place `x`, among the first `m` nodes.
spec fn placed(level: TddLevel, m: int, x: int, n: int, k: int) -> bool {
    &&& 0 <= n < m
    &&& 0 <= k < level.pairs_at(n).len()
    &&& place(level, n, k) == x
}

proof fn lemma_pairs_grow(level: TddLevel, n: int, m: int)
    requires
        0 <= n <= m,
    ensures
        level_pairs(level, n) <= level_pairs(level, m),
    decreases m,
{
    if n < m {
        lemma_pairs_grow(level, n, m - 1);
    }
}

/// Every pair has a place of its own.
proof fn lemma_place(level: TddLevel, m: int, x: int, n: int, k: int)
    requires
        placed(level, m, x, n, k),
    ensures
        0 <= x < level_pairs(level, m),
        forall|i: int, j: int| #[trigger] placed(level, m, x, i, j) ==> i == n && j == k,
{
    lemma_pairs_grow(level, n + 1, m);
    assert forall|i: int, j: int| #[trigger] placed(level, m, x, i, j) implies i == n && j == k by {
        if i < n {
            lemma_pairs_grow(level, i + 1, n);
        } else if n < i {
            lemma_pairs_grow(level, n + 1, i);
        }
    }
}

/// At every place stands a pair.
proof fn lemma_placed(level: TddLevel, m: int, x: int) -> (r: (int, int))
    requires
        0 <= m,
        0 <= x < level_pairs(level, m),
    ensures
        placed(level, m, x, r.0, r.1),
    decreases m,
{
    if x >= level_pairs(level, m - 1) {
        (m - 1, x - level_pairs(level, m - 1))
    } else {
        let (n, k) = lemma_placed(level, m - 1, x);
        (n, k)
    }
}

/// Pair `k` of node `n` of `a` stands in `b` as pair `j` of the node's
/// counterpart.
spec fn goes_to(
    a: Tdd,
    b: Tdd,
    f: spec_fn(int, int) -> int,
    t: int,
    n: int,
    k: int,
    j: int,
) -> bool {
    let p = a.levels@[t].pairs_at(n)[k];
    let q = b.levels@[t].pairs_at(f(t, n))[j];
    &&& 0 <= j < b.levels@[t].pairs_at(f(t, n)).len()
    &&& q.left.0 == f(a.vtree.left_at(t), p.left.0 as int)
    &&& q.right.0 == f(a.vtree.right_at(t), p.right.0 as int)
}

/// The place in `b` of the pair at place `x` in `a`.
spec fn moved(a: Tdd, b: Tdd, f: spec_fn(int, int) -> int, t: int, x: int) -> int {
    let (n, k) = choose|n: int, k: int|
        placed(a.levels@[t], a.levels@[t].nodes@.len() as int, x, n, k);
    let j = choose|j: int| goes_to(a, b, f, t, n, k, j);
    place(b.levels@[t], f(t, n), j)
}

/// The references of a pair are named, and the pair stands in the other diagram.
proof fn lemma_goes(a: Tdd, b: Tdd, f: spec_fn(int, int) -> int, t: int, n: int, k: int) -> (j: int)
    requires
        canonical(a),
        same_diagram(a, b, f),
        0 <= t < a.vtree.n(),
        !a.vtree.leaf_at(t),
        0 <= n < a.levels@[t].nodes@.len(),
        0 <= k < a.levels@[t].pairs_at(n).len(),
    ensures
        named(a, a.vtree.left_at(t), a.levels@[t].pairs_at(n)[k].left.0 as int),
        named(a, a.vtree.right_at(t), a.levels@[t].pairs_at(n)[k].right.0 as int),
        goes_to(a, b, f, t, n, k, j),
{
    let vt = a.vt();
    assert(vt.node_wf(t));
    let lt = vt.left_at(t);
    let rt = vt.right_at(t);
    assert(vt.node_wf(lt) && vt.node_wf(rt));
    lemma_parent(vt, lt);
    lemma_parent(vt, rt);
    let p = a.levels@[t].pairs_at(n)[k];
    let l = p.left.0 as int;
    let r = p.right.0 as int;
    assert(side_ref(a.levels@[t].pairs_at(n)[k], ChildSide::Left) == l);
    assert(side_ref(a.levels@[t].pairs_at(n)[k], ChildSide::Right) == r);
    assert(named(a, lt, l));
    assert(named(a, rt, r));
    assert(has_pair(a, t, n, l, r));
    assert(has_pair(b, t, f(t, n), f(lt, l), f(rt, r)));
    let list = b.levels@[t].pairs_at(f(t, n));
    let j = choose|j: int|
        0 <= j < list.len() && (#[trigger] b.levels@[t].pairs_at(f(t, n))[j]).left.0 == f(lt, l)
            && b.levels@[t].pairs_at(f(t, n))[j].right.0 == f(rt, r);
    assert(goes_to(a, b, f, t, n, k, j));
    j
}

/// The numbering tells the references of a level apart.
proof fn lemma_numbers_apart(a: Tdd, b: Tdd, f: spec_fn(int, int) -> int, c: int, x: int, y: int)
    requires
        canonical(a),
        same_diagram(a, b, f),
        0 <= c < a.vtree.n(),
        named(a, c, x),
        named(a, c, y),
        f(c, x) == f(c, y),
    ensures
        x == y,
{
    if !a.vt().leaf_at(c) {
        lemma_named_width(a, c, x);
        lemma_named_width(a, c, y);
    }
}

/// A level of `b` has at least the pairs of that of `a`.
proof fn lemma_pairs_le(a: Tdd, b: Tdd, f: spec_fn(int, int) -> int, t: int)
    requires
        canonical(a),
        same_diagram(a, b, f),
        0 <= t < a.vtree.n(),
        !a.vtree.leaf_at(t),
    ensures
        level_pairs(a.levels@[t], a.levels@[t].nodes@.len() as int) <= level_pairs(
            b.levels@[t],
            b.levels@[t].nodes@.len() as int,
        ),
{
    let vt = a.vt();
    assert(vt.node_wf(t));
    let la = a.levels@[t];
    let lb = b.levels@[t];
    let na = la.nodes@.len() as int;
    let nb = lb.nodes@.len() as int;
    let g = |x: int| moved(a, b, f, t, x);
    assert forall|x: int| 0 <= x < level_pairs(la, na) implies 0 <= #[trigger] g(x) < level_pairs(
        lb,
        nb,
    ) by {
        lemma_placed(la, na, x);
        let (n, k) = choose|n: int, k: int| placed(la, na, x, n, k);
        lemma_goes(a, b, f, t, n, k);
        let j = choose|j: int| goes_to(a, b, f, t, n, k, j);
        assert(0 <= f(t, n) < nb);
        assert(placed(lb, nb, g(x), f(t, n), j));
        lemma_place(lb, nb, g(x), f(t, n), j);
    }
    assert forall|x: int, y: int|
        0 <= x < level_pairs(la, na) && 0 <= y < level_pairs(la, na) && #[trigger] g(x)
            == #[trigger] g(y) implies x == y by {
        lemma_placed(la, na, x);
        lemma_placed(la, na, y);
        let (n, k) = choose|n: int, k: int| placed(la, na, x, n, k);
        let (m, i) = choose|n: int, k: int| placed(la, na, y, n, k);
        lemma_goes(a, b, f, t, n, k);
        lemma_goes(a, b, f, t, m, i);
        let j = choose|j: int| goes_to(a, b, f, t, n, k, j);
        let h = choose|j: int| goes_to(a, b, f, t, m, i, j);
        assert(0 <= f(t, n) < nb && 0 <= f(t, m) < nb);
        assert(placed(lb, nb, g(x), f(t, n), j));
        assert(placed(lb, nb, g(x), f(t, m), h));
        lemma_place(lb, nb, g(x), f(t, n), j);
        assert(f(t, n) == f(t, m) && j == h);
        let p = la.pairs_at(n)[k];
        let q = la.pairs_at(m)[i];
        lemma_numbers_apart(a, b, f, vt.left_at(t), p.left.0 as int, q.left.0 as int);
        lemma_numbers_apart(a, b, f, vt.right_at(t), p.right.0 as int, q.right.0 as int);
        assert(a.levels@[t].pairs_at(n)[k] == a.levels@[t].pairs_at(m)[i]);
    }
    lemma_injection(g, level_pairs(la, na), level_pairs(lb, nb));
}

/// Levels with as many pairs make for as many pairs in all.
proof fn lemma_pair_total_same(a: Seq<TddLevel>, b: Seq<TddLevel>, vt: Vtree, k: int)
    requires
        forall|t: int|
            0 <= t < k && !vt.leaf_at(t) ==> #[trigger] level_pairs(
                b[t],
                b[t].nodes@.len() as int,
            ) == level_pairs(a[t], a[t].nodes@.len() as int),
    ensures
        pair_total(b, vt, k) == pair_total(a, vt, k),
    decreases k,
{
    if k > 0 {
        lemma_pair_total_same(a, b, vt, k - 1);
        if !vt.leaf_at(k - 1) {
            assert(level_pairs(b[k - 1], b[k - 1].nodes@.len() as int) == level_pairs(
                a[k - 1],
                a[k - 1].nodes@.len() as int,
            ));
        }
    }
}

/// Two diagrams in canonical form over one vtree that have the same models have
/// as many pairs at every level, and so one size.
pub proof fn law_canonical_form_has_one_size(a: Tdd, b: Tdd)
    requires
        canonical(a),
        canonical(b),
        same_models(a, b),
    ensures
        forall|t: int|
            0 <= t < a.vtree.n() && !a.vtree.leaf_at(t) ==> #[trigger] level_pairs(
                b.levels@[t],
                b.levels@[t].nodes@.len() as int,
            ) == level_pairs(a.levels@[t], a.levels@[t].nodes@.len() as int),
        pair_total(b.levels@, *b.vtree, b.levels@.len() as int) == pair_total(
            a.levels@,
            *a.vtree,
            a.levels@.len() as int,
        ),
{
    let vt = a.vt();
    lemma_same_models_back(a, b);
    law_canonical_form_is_unique(a, b);
    law_canonical_form_is_unique(b, a);
    let f = choose|f: spec_fn(int, int) -> int| #[trigger] same_diagram(a, b, f);
    let g = choose|g: spec_fn(int, int) -> int| #[trigger] same_diagram(b, a, g);
    assert forall|t: int| 0 <= t < vt.n() && !vt.leaf_at(t) implies #[trigger] level_pairs(
        b.levels@[t],
        b.levels@[t].nodes@.len() as int,
    ) == level_pairs(a.levels@[t], a.levels@[t].nodes@.len() as int) by {
        lemma_pairs_le(a, b, f, t);
        lemma_pairs_le(b, a, g, t);
    }
    lemma_pair_total_same(a.levels@, b.levels@, vt, vt.n());
}

} // verus!
