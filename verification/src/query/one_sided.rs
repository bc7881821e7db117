//! What the reduced size leaves out: the nodes that depend on one side alone.
//!
//! A node with one pair holds where both ends of the pair do. Where one end
//! holds under every assignment, the node is the function of the other end.

use crate::build::pins_of;
use crate::canonical::{
    accepts, agree_below, canonical, leaf_of, lemma_accepts_local, lemma_accepts_node, lemma_mixed,
    lemma_named_width, lemma_one_node, lemma_pair_named, lemma_some_accepts, mixed, named,
    pair_accepts, total_asg,
};
use crate::conjoin::plain;
use crate::level::{InputPair, LeafLabel, LEAF_WIDTH};
use crate::query::count::{lemma_free_pins, pin_at, pinned_seed};
use crate::query::pins::{below, lemma_below_one, lemma_col_adds};
use crate::query::reduction::{full_count, kept_pairs, kept_total, leaves_free, reducible};
use crate::tdd::{
    col, eff_width, free_seed, lemma_col_internal, lemma_col_len, psum, ref_val, sides, term, Sides,
    Tdd,
};
use crate::vtree::Vtree;
use vstd::prelude::*;

verus! {

/// Number of ways to set the variables from `k` on that lie below `u`.
pub open spec fn room(vt: Vtree, u: int, k: int) -> nat
    decreases vt.num_vars_spec() - k,
{
    if k >= vt.num_vars_spec() {
        1
    } else if below(vt, u, leaf_of(vt, k)) {
        2 * room(vt, u, k + 1)
    } else {
        room(vt, u, k + 1)
    }
}

/// Below a leaf there is its own variable.
proof fn lemma_room_leaf(vt: Vtree, u: int, k: int)
    requires
        vt.wf(),
        0 <= u < vt.n(),
        vt.leaf_at(u),
        0 <= k <= vt.num_vars_spec(),
    ensures
        room(vt, u, k) == if vt.var_at(u) >= k {
            2nat
        } else {
            1nat
        },
    decreases vt.num_vars_spec() - k,
{
    assert(vt.node_wf(u));
    if k < vt.num_vars_spec() {
        lemma_room_leaf(vt, u, k + 1);
        assert(vt.var_at(vt.var_to_leaf@[k].0 as int) == k);
        assert(below(vt, u, leaf_of(vt, k)) == (u == leaf_of(vt, k)));
    }
}

/// The ways below a level are those below its children together.
proof fn lemma_room_internal(vt: Vtree, u: int, k: int)
    requires
        vt.wf(),
        0 <= u < vt.n(),
        !vt.leaf_at(u),
        0 <= k <= vt.num_vars_spec(),
    ensures
        room(vt, u, k) == room(vt, vt.left_at(u), k) * room(vt, vt.right_at(u), k),
    decreases vt.num_vars_spec() - k,
{
    if k < vt.num_vars_spec() {
        let l = vt.left_at(u);
        let r = vt.right_at(u);
        let v = leaf_of(vt, k);
        assert(vt.var_to_leaf@[k].0 < vt.n() && vt.leaf_at(vt.var_to_leaf@[k].0 as int));
        assert(vt.node_wf(u));
        assert(vt.node_wf(l) && vt.node_wf(r));
        lemma_room_internal(vt, u, k + 1);
        lemma_below_one(vt, u, v);
        let a = room(vt, l, k + 1);
        let b = room(vt, r, k + 1);
        assert((2 * a) * b == 2 * (a * b)) by (nonlinear_arith);
        assert(a * (2 * b) == 2 * (a * b)) by (nonlinear_arith);
        assert(below(vt, u, v) == (below(vt, l, v) || below(vt, r, v)));
    } else {
        assert(1nat * 1nat == 1nat) by (nonlinear_arith);
    }
}

/// The number of assignments below a level is the number of ways to set the
/// variables there.
proof fn lemma_room_full(vt: Vtree, u: int)
    requires
        vt.wf(),
        0 <= u < vt.n(),
    ensures
        room(vt, u, 0) == full_count(vt, u),
    decreases vt.rank_at(u),
{
    assert(vt.node_wf(u));
    if vt.leaf_at(u) {
        lemma_room_leaf(vt, u, 0);
    } else {
        assert(vt.node_wf(vt.left_at(u)) && vt.node_wf(vt.right_at(u)));
        lemma_room_internal(vt, u, 0);
        lemma_room_full(vt, vt.left_at(u));
        lemma_room_full(vt, vt.right_at(u));
    }
}

/// What node `i` of level `u` is worth with the first variables set by `asg`.
pub open spec fn worth_under(d: Tdd, u: int, i: int, asg: Seq<bool>) -> nat {
    col(d.levels@, d.vt(), pinned_seed(d.vt(), pins_of(asg), true), u)[i]
}

/// The node is worth nothing or one under every assignment.
pub open spec fn boolean(d: Tdd, u: int, i: int) -> bool {
    forall|x: Seq<bool>| total_asg(*d.vtree, x) ==> #[trigger] worth_under(d, u, i, x) <= 1
}

/// `x` begins with `asg`.
pub open spec fn begins(x: Seq<bool>, asg: Seq<bool>) -> bool {
    asg.len() <= x.len() && forall|v: int| 0 <= v < asg.len() ==> #[trigger] x[v] == asg[v]
}

/// The function of the node holds under every assignment that begins with
/// `asg`.
pub open spec fn holds_from(d: Tdd, u: int, i: int, asg: Seq<bool>) -> bool {
    forall|x: Seq<bool>|
        total_asg(*d.vtree, x) && begins(x, asg) ==> #[trigger] accepts(d, u, i, x)
}

/// The function of the node holds under every assignment.
pub open spec fn always(d: Tdd, u: int, i: int) -> bool {
    forall|x: Seq<bool>| total_asg(*d.vtree, x) ==> #[trigger] accepts(d, u, i, x)
}

/// Setting one more variable splits the worth of a node where the variable lies
/// below it, and leaves it as it is elsewhere.
proof fn lemma_worth_splits(d: Tdd, u: int, i: int, asg: Seq<bool>)
    requires
        plain(d),
        0 <= u < d.vtree.n(),
        0 <= i < eff_width(d.levels@, d.vt(), u),
        asg.len() < d.vtree.num_vars_spec(),
    ensures
        ({
            let n = worth_under(d, u, i, asg);
            let a = worth_under(d, u, i, asg.push(true));
            let b = worth_under(d, u, i, asg.push(false));
            if below(d.vt(), u, leaf_of(d.vt(), asg.len() as int)) {
                n == a + b
            } else {
                n == a && n == b
            }
        }),
{
    let vt = d.vt();
    let v = asg.len() as int;
    let t = leaf_of(vt, v);
    let s = pinned_seed(vt, pins_of(asg), true);
    let a = pinned_seed(vt, pins_of(asg.push(true)), true);
    let b = pinned_seed(vt, pins_of(asg.push(false)), true);
    assert(vt.var_to_leaf@[v].0 < vt.n() && vt.leaf_at(vt.var_to_leaf@[v].0 as int));
    assert(vt.var_at(t) == v);
    assert forall|w: int, j: int|
        0 <= w < vt.n() && vt.leaf_at(w) && 0 <= j < LEAF_WIDTH implies if w == t {
        #[trigger] s(w, j) == a(w, j) + b(w, j)
    } else {
        s(w, j) == a(w, j) && s(w, j) == b(w, j)
    } by {
        assert(vt.node_wf(w));
        let z = vt.var_at(w);
        if w == t {
            assert(pin_at(pins_of(asg), z) is None);
            assert(pin_at(pins_of(asg.push(true)), z) == Some(true));
            assert(pin_at(pins_of(asg.push(false)), z) == Some(false));
            assert(LeafLabel::at(j) == LeafLabel::One || LeafLabel::at(j) == LeafLabel::Pos
                || LeafLabel::at(j) == LeafLabel::Neg);
        } else {
            assert(z != v);
            assert(pin_at(pins_of(asg.push(true)), z) == pin_at(pins_of(asg), z));
            assert(pin_at(pins_of(asg.push(false)), z) == pin_at(pins_of(asg), z));
        }
    }
    lemma_col_adds(d.levels@, vt, t, s, a, b, u);
}

/// A node that is worth at most one under every assignment is worth at most the
/// number of ways to set the free variables below it, and is worth all of them
/// exactly where its function always holds.
proof fn lemma_worth_full(d: Tdd, u: int, i: int, asg: Seq<bool>)
    requires
        plain(d),
        0 <= u < d.vtree.n(),
        0 <= i < eff_width(d.levels@, d.vt(), u),
        asg.len() <= d.vtree.num_vars_spec(),
        boolean(d, u, i),
    ensures
        worth_under(d, u, i, asg) <= room(d.vt(), u, asg.len() as int),
        worth_under(d, u, i, asg) == room(d.vt(), u, asg.len() as int) <==> holds_from(d, u, i, asg),
    decreases d.vtree.num_vars_spec() - asg.len(),
{
    let vt = d.vt();
    let v = asg.len() as int;
    if v == vt.num_vars_spec() {
        assert(total_asg(*d.vtree, asg) && begins(asg, asg));
        assert(accepts(d, u, i, asg) == (worth_under(d, u, i, asg) > 0));
        if accepts(d, u, i, asg) {
            assert forall|x: Seq<bool>| total_asg(*d.vtree, x) && begins(x, asg) implies
                #[trigger] accepts(d, u, i, x) by {
                assert(x =~= asg);
            }
        }
    } else {
        let yes = asg.push(true);
        let no = asg.push(false);
        lemma_worth_full(d, u, i, yes);
        lemma_worth_full(d, u, i, no);
        lemma_worth_splits(d, u, i, asg);
        if holds_from(d, u, i, asg) {
            assert forall|x: Seq<bool>| total_asg(*d.vtree, x) && begins(x, yes) implies
                #[trigger] accepts(d, u, i, x) by {
                assert forall|w: int| 0 <= w < asg.len() implies #[trigger] x[w] == asg[w] by {
                    assert(x[w] == yes[w]);
                }
            }
            assert forall|x: Seq<bool>| total_asg(*d.vtree, x) && begins(x, no) implies
                #[trigger] accepts(d, u, i, x) by {
                assert forall|w: int| 0 <= w < asg.len() implies #[trigger] x[w] == asg[w] by {
                    assert(x[w] == no[w]);
                }
            }
        }
        if holds_from(d, u, i, yes) && holds_from(d, u, i, no) {
            assert forall|x: Seq<bool>| total_asg(*d.vtree, x) && begins(x, asg) implies
                #[trigger] accepts(d, u, i, x) by {
                if x[v] {
                    assert(begins(x, yes));
                } else {
                    assert(begins(x, no));
                }
            }
        }
    }
}

/// A reference admits every assignment below it exactly where its function
/// always holds.
pub proof fn lemma_free_always(d: Tdd, c: int, raw: u32)
    requires
        plain(d),
        0 <= c < d.vtree.n(),
        (raw as int) < eff_width(d.levels@, d.vt(), c),
        boolean(d, c, raw as int),
    ensures
        leaves_free(d, c, raw) <==> always(d, c, raw as int),
{
    let none = Seq::<bool>::empty();
    let i = raw as int;
    lemma_free_pins(d.vt(), pins_of(none), true);
    lemma_worth_full(d, c, i, none);
    lemma_room_full(d.vt(), c);
    assert(!d.levels@[c].marginal());
    if holds_from(d, c, i, none) {
        assert forall|x: Seq<bool>| total_asg(*d.vtree, x) implies #[trigger] accepts(d, c, i, x) by {
            assert(begins(x, none));
        }
    }
}

/// Node `i` at `t` holds under the same assignments as node `j` at `c`.
pub open spec fn follows(d: Tdd, t: int, i: int, c: int, j: int) -> bool {
    forall|x: Seq<bool>|
        total_asg(*d.vtree, x) ==> #[trigger] accepts(d, t, i, x) == accepts(d, c, j, x)
}

/// Node `i` of level `t` depends on one side alone: it has one pair, and is the
/// function of one of its ends.
pub open spec fn one_sided(d: Tdd, t: int, i: int) -> bool {
    let list = d.levels@[t].pairs_at(i);
    &&& list.len() == 1
    &&& follows(d, t, i, d.vtree.left_at(t), list[0].left.0 as int) || follows(
        d,
        t,
        i,
        d.vtree.right_at(t),
        list[0].right.0 as int,
    )
}

/// A node with one pair that is the function of the end at `c` holds wherever
/// the end beside it does not matter.
proof fn lemma_follows_free(d: Tdd, c: int, j: int, s: int, m: int, x0: Seq<bool>)
    requires
        plain(d),
        0 <= c < d.vtree.n(),
        0 <= s < d.vtree.n(),
        forall|u: int|
            0 <= u < d.vtree.n() && #[trigger] below(*d.vtree, s, u) ==> !below(*d.vtree, c, u),
        total_asg(*d.vtree, x0),
        accepts(d, c, j, x0),
        forall|x: Seq<bool>|
            total_asg(*d.vtree, x) && #[trigger] accepts(d, c, j, x) ==> accepts(d, s, m, x),
    ensures
        always(d, s, m),
{
    let vt = d.vt();
    assert forall|y: Seq<bool>| total_asg(*d.vtree, y) implies #[trigger] accepts(d, s, m, y) by {
        let z = mixed(vt, c, x0, y);
        lemma_mixed(vt, c, x0, y);
        lemma_accepts_local(d, c, x0, z);
        assert(accepts(d, c, j, z));
        assert(accepts(d, s, m, z));
        assert(agree_below(vt, s, z, y)) by {
            assert forall|v: int|
                0 <= v < vt.num_vars_spec() && below(vt, s, leaf_of(vt, v)) implies #[trigger] z[v]
                == y[v] by {
                assert(vt.var_to_leaf@[v].0 < vt.n());
            }
        }
        lemma_accepts_local(d, s, z, y);
    }
}

/// A node that holds under some assignment, and whose references are worth at
/// most one under each, is left out of the reduced size exactly where it has one
/// pair and its truth value is that of one end of the pair, under every
/// assignment.
pub proof fn law_left_out_depends_on_one_side(d: Tdd, t: int, i: int)
    requires
        plain(d),
        0 <= t < d.vtree.n(),
        !d.vtree.leaf_at(t),
        0 <= i < d.levels@[t].nodes@.len(),
        d.levels@[t].pairs_at(i).len() == 1 ==> ({
            let q = d.levels@[t].pairs_at(i)[0];
            &&& q.left.0 < eff_width(d.levels@, d.vt(), d.vtree.left_at(t))
            &&& q.right.0 < eff_width(d.levels@, d.vt(), d.vtree.right_at(t))
            &&& boolean(d, d.vtree.left_at(t), q.left.0 as int)
            &&& boolean(d, d.vtree.right_at(t), q.right.0 as int)
        }),
        exists|x: Seq<bool>| total_asg(*d.vtree, x) && #[trigger] accepts(d, t, i, x),
    ensures
        reducible(d, t, i) <==> one_sided(d, t, i),
{
    let vt = d.vt();
    let list = d.levels@[t].pairs_at(i);
    if list.len() == 1 {
        let l = vt.left_at(t);
        let r = vt.right_at(t);
        let q = list[0];
        let a = q.left.0 as int;
        let b = q.right.0 as int;
        assert(vt.node_wf(t));
        assert(vt.node_wf(l) && vt.node_wf(r));
        lemma_free_always(d, l, q.left.0);
        lemma_free_always(d, r, q.right.0);
        assert forall|x: Seq<bool>| total_asg(*d.vtree, x) implies #[trigger] accepts(d, t, i, x)
            == (accepts(d, l, a, x) && accepts(d, r, b, x)) by {
            lemma_accepts_node(d, t, i, x);
            if accepts(d, l, a, x) && accepts(d, r, b, x) {
                assert(pair_accepts(d, t, list[0], x));
            }
        }
        let x0 = choose|x: Seq<bool>| total_asg(*d.vtree, x) && #[trigger] accepts(d, t, i, x);
        assert forall|u: int| 0 <= u < vt.n() implies !(#[trigger] below(vt, l, u) && #[trigger] below(
            vt,
            r,
            u,
        )) by {
            lemma_below_one(vt, t, u);
        }
        if follows(d, t, i, l, a) {
            assert forall|x: Seq<bool>|
                total_asg(*d.vtree, x) && #[trigger] accepts(d, l, a, x) implies accepts(
                d,
                r,
                b,
                x,
            ) by {
                assert(accepts(d, t, i, x) == accepts(d, l, a, x));
            }
            lemma_follows_free(d, l, a, r, b, x0);
        }
        if follows(d, t, i, r, b) {
            assert forall|x: Seq<bool>|
                total_asg(*d.vtree, x) && #[trigger] accepts(d, r, b, x) implies accepts(
                d,
                l,
                a,
                x,
            ) by {
                assert(accepts(d, t, i, x) == accepts(d, r, b, x));
            }
            lemma_follows_free(d, r, b, l, a, x0);
        }
        if always(d, l, a) {
            assert forall|x: Seq<bool>| total_asg(*d.vtree, x) implies #[trigger] accepts(
                d,
                t,
                i,
                x,
            ) == accepts(d, r, b, x) by {
                assert(accepts(d, l, a, x));
            }
        }
        if always(d, r, b) {
            assert forall|x: Seq<bool>| total_asg(*d.vtree, x) implies #[trigger] accepts(
                d,
                t,
                i,
                x,
            ) == accepts(d, l, a, x) by {
                assert(accepts(d, r, b, x));
            }
        }
    }
}

/// A list of which at most one pair is worth something, and that no more than
/// one, is worth at most one.
proof fn lemma_psum_lone(list: Seq<InputPair>, s: Sides)
    requires
        forall|k: int| 0 <= k < list.len() ==> term(#[trigger] list[k], s) <= 1,
        forall|k: int, m: int|
            0 <= k < list.len() && 0 <= m < list.len() && term(#[trigger] list[k], s) > 0 && term(
                #[trigger] list[m],
                s,
            ) > 0 ==> k == m,
    ensures
        psum(list, s) <= 1,
        psum(list, s) > 0 ==> exists|k: int| 0 <= k < list.len() && term(#[trigger] list[k], s) > 0,
    decreases list.len(),
{
    if list.len() > 0 {
        let rest = list.drop_last();
        let last = list.len() - 1;
        assert forall|k: int| 0 <= k < rest.len() implies term(#[trigger] rest[k], s) <= 1 by {
            assert(rest[k] == list[k]);
        }
        assert forall|k: int, m: int|
            0 <= k < rest.len() && 0 <= m < rest.len() && term(#[trigger] rest[k], s) > 0 && term(
                #[trigger] rest[m],
                s,
            ) > 0 implies k == m by {
            assert(rest[k] == list[k] && rest[m] == list[m]);
        }
        lemma_psum_lone(rest, s);
        assert(term(list[last], s) <= 1);
        if psum(rest, s) > 0 {
            let k = choose|k: int| 0 <= k < rest.len() && term(#[trigger] rest[k], s) > 0;
            assert(term(list[k], s) > 0);
        }
    }
}

/// A named node of a canonical diagram is worth at most one under an assignment.
proof fn lemma_canonical_worth(d: Tdd, t: int, i: int, x: Seq<bool>)
    requires
        canonical(d),
        0 <= t < d.vtree.n(),
        named(d, t, i),
        total_asg(*d.vtree, x),
    ensures
        worth_under(d, t, i, x) <= 1,
    decreases d.vtree.rank_at(t),
{
    let vt = d.vt();
    let seed = pinned_seed(vt, pins_of(x), true);
    assert(vt.node_wf(t));
    lemma_named_width(d, t, i);
    if vt.leaf_at(t) {
        assert(pin_at(pins_of(x), vt.var_at(t)) == Some(x[vt.var_at(t)]));
        assert(LeafLabel::at(i) == LeafLabel::One || LeafLabel::at(i) == LeafLabel::Pos
            || LeafLabel::at(i) == LeafLabel::Neg);
    } else {
        let l = vt.left_at(t);
        let r = vt.right_at(t);
        assert(vt.node_wf(l) && vt.node_wf(r));
        assert(!d.levels@[t].marginal() && !d.levels@[l].marginal() && !d.levels@[r].marginal());
        lemma_col_internal(d.levels@, vt, seed, t);
        let s = sides(d.levels@, vt, seed, t);
        let list = d.levels@[t].pairs_at(i);
        assert forall|k: int| 0 <= k < list.len() implies term(#[trigger] list[k], s) <= 1 && (term(
            list[k],
            s,
        ) > 0 ==> pair_accepts(d, t, list[k], x)) by {
            lemma_pair_named(d, l, i, k);
            lemma_canonical_worth(d, l, list[k].left.0 as int, x);
            lemma_canonical_worth(d, r, list[k].right.0 as int, x);
            let a = ref_val(list[k].left.0, s.lm, s.lc);
            let b = ref_val(list[k].right.0, s.rm, s.rc);
            assert(a * b <= 1 && (a * b > 0 ==> a > 0 && b > 0)) by (nonlinear_arith)
                requires
                    0 <= a <= 1,
                    0 <= b <= 1,
            ;
        }
        assert forall|k: int, m: int|
            0 <= k < list.len() && 0 <= m < list.len() && term(#[trigger] list[k], s) > 0 && term(
                #[trigger] list[m],
                s,
            ) > 0 implies k == m by {
            lemma_pair_named(d, l, i, k);
            lemma_pair_named(d, l, i, m);
            lemma_one_node(d, l, list[k].left.0 as int, list[m].left.0 as int, x);
            lemma_one_node(d, r, list[k].right.0 as int, list[m].right.0 as int, x);
            assert(d.levels@[t].pairs_at(i)[k] == d.levels@[t].pairs_at(i)[m]);
        }
        lemma_psum_lone(list, s);
    }
}

/// In a canonical diagram a node is left out of the reduced size exactly where
/// it depends on one side alone.
pub proof fn law_canonical_left_out(d: Tdd, t: int, i: int)
    requires
        canonical(d),
        0 <= t < d.vtree.n(),
        !d.vtree.leaf_at(t),
        0 <= i < d.levels@[t].nodes@.len(),
    ensures
        reducible(d, t, i) <==> one_sided(d, t, i),
{
    let vt = d.vt();
    let l = vt.left_at(t);
    let r = vt.right_at(t);
    assert(vt.node_wf(t));
    assert(vt.node_wf(l) && vt.node_wf(r));
    let list = d.levels@[t].pairs_at(i);
    assert(list.len() > 0 && named(d, t, i));
    let x0 = lemma_some_accepts(d, t, i);
    assert(total_asg(*d.vtree, x0) && accepts(d, t, i, x0));
    if list.len() == 1 {
        lemma_pair_named(d, l, i, 0);
        assert forall|x: Seq<bool>| total_asg(*d.vtree, x) implies #[trigger] worth_under(
            d,
            l,
            list[0].left.0 as int,
            x,
        ) <= 1 by {
            lemma_canonical_worth(d, l, list[0].left.0 as int, x);
        }
        assert forall|x: Seq<bool>| total_asg(*d.vtree, x) implies #[trigger] worth_under(
            d,
            r,
            list[0].right.0 as int,
            x,
        ) <= 1 by {
            lemma_canonical_worth(d, r, list[0].right.0 as int, x);
        }
        law_left_out_depends_on_one_side(d, t, i);
    }
}

/// Pairs of the first `k` nodes of level `t`, without those that depend on one
/// side alone.
pub open spec fn essential_pairs(d: Tdd, t: int, k: int) -> nat
    decreases k,
{
    if k <= 0 {
        0
    } else {
        essential_pairs(d, t, k - 1) + if one_sided(d, t, k - 1) {
            0
        } else {
            d.levels@[t].pairs_at(k - 1).len()
        }
    }
}

/// Pairs of the first `k` levels, without the nodes that depend on one side
/// alone.
pub open spec fn essential_total(d: Tdd, k: int) -> nat
    decreases k,
{
    if k <= 0 {
        0
    } else if d.vtree.leaf_at(k - 1) {
        essential_total(d, k - 1)
    } else {
        essential_total(d, k - 1) + essential_pairs(d, k - 1, d.levels@[k - 1].nodes@.len() as int)
    }
}

proof fn lemma_essential_pairs(d: Tdd, t: int, k: int)
    requires
        canonical(d),
        0 <= t < d.vtree.n(),
        !d.vtree.leaf_at(t),
        0 <= k <= d.levels@[t].nodes@.len(),
    ensures
        kept_pairs(d, t, k) == essential_pairs(d, t, k),
    decreases k,
{
    if k > 0 {
        lemma_essential_pairs(d, t, k - 1);
        law_canonical_left_out(d, t, k - 1);
    }
}

/// The reduced size of a canonical diagram counts the pairs of the nodes that
/// depend on both sides.
pub proof fn law_reduced_size_counts_two_sided_nodes(d: Tdd, k: int)
    requires
        canonical(d),
        0 <= k <= d.vtree.n(),
    ensures
        kept_total(d, k) == essential_total(d, k),
    decreases k,
{
    if k > 0 {
        law_reduced_size_counts_two_sided_nodes(d, k - 1);
        assert(!d.levels@[k - 1].marginal());
        if !d.vt().leaf_at(k - 1) {
            lemma_essential_pairs(d, k - 1, d.levels@[k - 1].nodes@.len() as int);
        }
    }
}

/// What a reference into level `c` is worth: the number of assignments below it
/// that it stands for, whether the level is explicit or summed out.
pub open spec fn count_of(d: Tdd, c: int, raw: u32) -> nat {
    ref_val(raw, d.levels@[c].marginal(), col(d.levels@, d.vt(), free_seed(), c))
}

/// Whether a node is left out is told by the counts of its ends alone. So it does
/// not matter whether the levels below are explicit or summed out, nor whether a
/// count stands in the reference or in a slot.
pub proof fn law_left_out_goes_by_counts(a: Tdd, b: Tdd, t: int, i: int, j: int)
    requires
        a.vtree == b.vtree,
        a.levels@[t].pairs_at(i).len() == 1,
        b.levels@[t].pairs_at(j).len() == 1,
        count_of(a, a.vtree.left_at(t), a.levels@[t].pairs_at(i)[0].left.0) == count_of(
            b,
            a.vtree.left_at(t),
            b.levels@[t].pairs_at(j)[0].left.0,
        ),
        count_of(a, a.vtree.right_at(t), a.levels@[t].pairs_at(i)[0].right.0) == count_of(
            b,
            a.vtree.right_at(t),
            b.levels@[t].pairs_at(j)[0].right.0,
        ),
    ensures
        reducible(a, t, i) == reducible(b, t, j),
{
}

/// The pair with its ends exchanged.
pub open spec fn turned(q: InputPair) -> InputPair {
    InputPair { left: q.right, right: q.left }
}

/// Level `t` of `b` holds what level `t` of `a` holds, with the ends of every
/// pair exchanged.
pub open spec fn level_mirrored(a: Tdd, b: Tdd, t: int) -> bool {
    let x = a.levels@[t];
    let y = b.levels@[t];
    &&& x.marginal() == y.marginal()
    &&& x.marginal_counts is Some == y.marginal_counts is Some
    &&& x.marginal_counts is Some ==> x.marginal_counts->0@.len() == y.marginal_counts->0@.len()
    &&& x.weight_marginal == y.weight_marginal
    &&& x.retired_marg_width == y.retired_marg_width
    &&& forall|j: int| #[trigger] x.slot_count(j) == y.slot_count(j)
    &&& x.nodes@.len() == y.nodes@.len()
    &&& forall|i: int|
        0 <= i < x.nodes@.len() ==> (#[trigger] y.pairs_at(i)).len() == x.pairs_at(i).len()
    &&& forall|i: int, k: int|
        0 <= i < x.nodes@.len() && 0 <= k < x.pairs_at(i).len() ==> #[trigger] y.pairs_at(i)[k]
            == turned(x.pairs_at(i)[k])
}

/// The second diagram is the first with the two children of every vtree node
/// exchanged, and the two ends of every pair.
pub open spec fn mirrored(a: Tdd, b: Tdd) -> bool {
    &&& a.vtree.n() == b.vtree.n()
    &&& forall|t: int|
        #![trigger b.vtree.leaf_at(t)]
        0 <= t < a.vtree.n() ==> {
            &&& b.vtree.rank_at(t) == a.vtree.rank_at(t)
            &&& b.vtree.leaf_at(t) == a.vtree.leaf_at(t)
            &&& !a.vtree.leaf_at(t) ==> b.vtree.left_at(t) == a.vtree.right_at(t)
                && b.vtree.right_at(t) == a.vtree.left_at(t)
        }
    &&& forall|t: int| 0 <= t < a.vtree.n() ==> #[trigger] level_mirrored(a, b, t)
}

/// A list with its pairs turned is worth the same where the sides are exchanged.
proof fn lemma_psum_turned(p: Seq<InputPair>, q: Seq<InputPair>, s: Sides, z: Sides)
    requires
        p.len() == q.len(),
        forall|k: int| 0 <= k < p.len() ==> #[trigger] q[k] == turned(p[k]),
        s.lm == z.rm && s.rm == z.lm && s.lc == z.rc && s.rc == z.lc,
    ensures
        psum(p, s) == psum(q, z),
    decreases p.len(),
{
    if p.len() > 0 {
        assert forall|k: int| 0 <= k < p.drop_last().len() implies #[trigger] q.drop_last()[k]
            == turned(p.drop_last()[k]) by {
            assert(q[k] == turned(p[k]));
        }
        lemma_psum_turned(p.drop_last(), q.drop_last(), s, z);
        assert(q[q.len() - 1] == turned(p[p.len() - 1]));
        let a = ref_val(p.last().left.0, s.lm, s.lc);
        let b = ref_val(p.last().right.0, s.rm, s.rc);
        assert(a * b == b * a) by (nonlinear_arith);
    }
}

/// A mirrored diagram has the same counts, and as many assignments below each
/// level.
proof fn lemma_mirror_counts(a: Tdd, b: Tdd, t: int)
    requires
        a.vtree.wf(),
        b.vtree.wf(),
        mirrored(a, b),
        0 <= t < a.vtree.n(),
    ensures
        col(a.levels@, a.vt(), free_seed(), t) == col(b.levels@, b.vt(), free_seed(), t),
        full_count(a.vt(), t) == full_count(b.vt(), t),
    decreases a.vtree.rank_at(t),
{
    let va = a.vt();
    let vb = b.vt();
    let seed = free_seed();
    assert(va.node_wf(t) && vb.node_wf(t));
    assert(b.vtree.leaf_at(t) == a.vtree.leaf_at(t));
    assert(level_mirrored(a, b, t));
    if !va.leaf_at(t) {
        let l = va.left_at(t);
        let r = va.right_at(t);
        assert(va.node_wf(l) && va.node_wf(r));
        assert(vb.node_wf(l) && vb.node_wf(r));
        lemma_mirror_counts(a, b, l);
        lemma_mirror_counts(a, b, r);
        let x = full_count(va, l);
        let y = full_count(va, r);
        assert(x * y == y * x) by (nonlinear_arith);
        assert(b.vtree.leaf_at(l) == a.vtree.leaf_at(l));
        assert(b.vtree.leaf_at(r) == a.vtree.leaf_at(r));
        if !a.levels@[t].marginal() {
            assert(level_mirrored(a, b, l) && level_mirrored(a, b, r));
            lemma_col_internal(a.levels@, va, seed, t);
            lemma_col_internal(b.levels@, vb, seed, t);
            assert forall|i: int| 0 <= i < a.levels@[t].nodes@.len() implies #[trigger] psum(
                a.levels@[t].pairs_at(i),
                sides(a.levels@, va, seed, t),
            ) == psum(b.levels@[t].pairs_at(i), sides(b.levels@, vb, seed, t)) by {
                assert(b.levels@[t].pairs_at(i).len() == a.levels@[t].pairs_at(i).len());
                lemma_psum_turned(
                    a.levels@[t].pairs_at(i),
                    b.levels@[t].pairs_at(i),
                    sides(a.levels@, va, seed, t),
                    sides(b.levels@, vb, seed, t),
                );
            }
        }
    }
    lemma_col_len(a.levels@, va, seed, t);
    lemma_col_len(b.levels@, vb, seed, t);
    assert(col(a.levels@, va, seed, t) =~= col(b.levels@, vb, seed, t));
}

proof fn lemma_mirror_pairs(a: Tdd, b: Tdd, t: int, k: int)
    requires
        a.vtree.wf(),
        b.vtree.wf(),
        mirrored(a, b),
        0 <= t < a.vtree.n(),
        !a.vtree.leaf_at(t),
        0 <= k <= a.levels@[t].nodes@.len(),
    ensures
        kept_pairs(a, t, k) == kept_pairs(b, t, k),
    decreases k,
{
    if k > 0 {
        let i = k - 1;
        let l = a.vt().left_at(t);
        let r = a.vt().right_at(t);
        lemma_mirror_pairs(a, b, t, i);
        assert(a.vt().node_wf(t));
        assert(b.vtree.leaf_at(t) == a.vtree.leaf_at(t));
        assert(level_mirrored(a, b, t) && level_mirrored(a, b, l) && level_mirrored(a, b, r));
        lemma_mirror_counts(a, b, l);
        lemma_mirror_counts(a, b, r);
        assert(b.levels@[t].pairs_at(i).len() == a.levels@[t].pairs_at(i).len());
        if a.levels@[t].pairs_at(i).len() == 1 {
            assert(b.levels@[t].pairs_at(i)[0] == turned(a.levels@[t].pairs_at(i)[0]));
        }
    }
}

/// Exchanging the two children of every vtree node, and the two ends of every
/// pair, leaves the reduced size as it is.
pub proof fn law_reduced_size_is_mirrored(a: Tdd, b: Tdd, k: int)
    requires
        a.vtree.wf(),
        b.vtree.wf(),
        mirrored(a, b),
        0 <= k <= a.vtree.n(),
    ensures
        kept_total(a, k) == kept_total(b, k),
    decreases k,
{
    if k > 0 {
        law_reduced_size_is_mirrored(a, b, k - 1);
        assert(b.vtree.leaf_at(k - 1) == a.vtree.leaf_at(k - 1));
        assert(level_mirrored(a, b, k - 1));
        if !a.vt().leaf_at(k - 1) {
            lemma_mirror_pairs(a, b, k - 1, a.levels@[k - 1].nodes@.len() as int);
        }
    }
}

} // verus!
