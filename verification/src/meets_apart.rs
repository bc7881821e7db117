//! Meets of different nodes are different nodes: a product of diagrams in which
//! no pair occurs twice is one.

use crate::canonical::{lemma_parent, named, unambiguous};
use crate::conjoin::{
    entry_ok, is_entry, label_meet, meet_lists, meet_pair, meets, plain, table_exact,
};
use crate::level::{
    side_ref, ChildSide, InputPair, TddLevel, NEG_LEAF_RAW, ONE_LEAF_RAW, POS_LEAF_RAW, ZERO_RAW,
};
use crate::minimize::contract::content_twin::side_under;
use crate::minimize::contract::fingerprint::side_child;
use crate::minimize::tame::{
    full, lemma_named_uses, lemma_tame_leaf, lemma_unambiguous_lone, lone, uses,
};
use crate::tdd::{eff_width, list_ok, pair_ok, refs_ok, Tdd};
use vstd::prelude::*;

verus! {

/// The meet of two pairs.
spec fn met(p: InputPair, q: InputPair, gl: Seq<Vec<u32>>, gr: Seq<Vec<u32>>) -> (u32, u32) {
    (gl[p.left.0 as int]@[q.left.0 as int], gr[p.right.0 as int]@[q.right.0 as int])
}

/// The two pairs meet in `e`.
spec fn meet_in(
    p: InputPair,
    q: InputPair,
    gl: Seq<Vec<u32>>,
    gr: Seq<Vec<u32>>,
    e: InputPair,
) -> bool {
    met(p, q, gl, gr) == (e.left.0, e.right.0) && e.left.0 != ZERO_RAW && e.right.0 != ZERO_RAW
}

/// Where a meet with one pair comes from.
proof fn lemma_meet_pair_from(
    p: InputPair,
    qs: Seq<InputPair>,
    gl: Seq<Vec<u32>>,
    gr: Seq<Vec<u32>>,
    k: int,
) -> (b: int)
    requires
        0 <= k < meet_pair(p, qs, gl, gr).len(),
    ensures
        0 <= b < qs.len(),
        meet_in(p, qs[b], gl, gr, meet_pair(p, qs, gl, gr)[k]),
    decreases qs.len(),
{
    let rest = meet_pair(p, qs.drop_last(), gl, gr);
    if k < rest.len() {
        let b = lemma_meet_pair_from(p, qs.drop_last(), gl, gr, k);
        assert(qs.drop_last()[b] == qs[b]);
        b
    } else {
        qs.len() - 1
    }
}

/// Where a meet comes from.
proof fn lemma_meet_from(
    ps: Seq<InputPair>,
    qs: Seq<InputPair>,
    gl: Seq<Vec<u32>>,
    gr: Seq<Vec<u32>>,
    k: int,
) -> (ab: (int, int))
    requires
        0 <= k < meet_lists(ps, qs, gl, gr).len(),
    ensures
        0 <= ab.0 < ps.len(),
        0 <= ab.1 < qs.len(),
        meet_in(ps[ab.0], qs[ab.1], gl, gr, meet_lists(ps, qs, gl, gr)[k]),
    decreases ps.len(),
{
    let rest = meet_lists(ps.drop_last(), qs, gl, gr);
    if k < rest.len() {
        let ab = lemma_meet_from(ps.drop_last(), qs, gl, gr, k);
        assert(ps.drop_last()[ab.0] == ps[ab.0]);
        ab
    } else {
        let b = lemma_meet_pair_from(ps.last(), qs, gl, gr, k - rest.len());
        (ps.len() - 1, b)
    }
}

/// Different pairs of the two lists meet in different pairs.
spec fn meets_differ(
    ps: Seq<InputPair>,
    qs: Seq<InputPair>,
    gl: Seq<Vec<u32>>,
    gr: Seq<Vec<u32>>,
) -> bool {
    forall|a: int, b: int, c: int, d: int, e: InputPair|
        0 <= a < ps.len() && 0 <= c < ps.len() && 0 <= b < qs.len() && 0 <= d < qs.len()
            && #[trigger] meet_in(ps[a], qs[b], gl, gr, e) && #[trigger] meet_in(
            ps[c],
            qs[d],
            gl,
            gr,
            e,
        ) ==> a == c && b == d
}

proof fn lemma_meet_pair_once(
    p: InputPair,
    qs: Seq<InputPair>,
    gl: Seq<Vec<u32>>,
    gr: Seq<Vec<u32>>,
)
    requires
        forall|b: int, d: int, e: InputPair|
            0 <= b < qs.len() && 0 <= d < qs.len() && #[trigger] meet_in(p, qs[b], gl, gr, e)
                && #[trigger] meet_in(p, qs[d], gl, gr, e) ==> b == d,
    ensures
        forall|k: int, m: int|
            0 <= k < m < meet_pair(p, qs, gl, gr).len() ==> meet_pair(p, qs, gl, gr)[k]
                != meet_pair(p, qs, gl, gr)[m],
    decreases qs.len(),
{
    if qs.len() > 0 {
        let head = qs.drop_last();
        let rest = meet_pair(p, head, gl, gr);
        let out = meet_pair(p, qs, gl, gr);
        assert forall|b: int, d: int, e: InputPair|
            0 <= b < head.len() && 0 <= d < head.len() && #[trigger] meet_in(p, head[b], gl, gr, e)
                && #[trigger] meet_in(p, head[d], gl, gr, e) implies b == d by {
            assert(head[b] == qs[b] && head[d] == qs[d]);
            assert(meet_in(p, qs[b], gl, gr, e) && meet_in(p, qs[d], gl, gr, e));
        }
        lemma_meet_pair_once(p, head, gl, gr);
        assert forall|k: int, m: int| 0 <= k < m < out.len() implies out[k] != out[m] by {
            if m == rest.len() && out[k] == out[m] {
                let b = lemma_meet_pair_from(p, head, gl, gr, k);
                assert(head[b] == qs[b]);
                assert(meet_in(p, qs[b], gl, gr, out[m]));
                assert(meet_in(p, qs[qs.len() - 1], gl, gr, out[m]));
            }
        }
    }
}

proof fn lemma_meet_once(
    ps: Seq<InputPair>,
    qs: Seq<InputPair>,
    gl: Seq<Vec<u32>>,
    gr: Seq<Vec<u32>>,
)
    requires
        meets_differ(ps, qs, gl, gr),
    ensures
        forall|k: int, m: int|
            0 <= k < m < meet_lists(ps, qs, gl, gr).len() ==> meet_lists(ps, qs, gl, gr)[k]
                != meet_lists(ps, qs, gl, gr)[m],
    decreases ps.len(),
{
    if ps.len() > 0 {
        let head = ps.drop_last();
        let p = ps.last();
        let x = meet_lists(head, qs, gl, gr);
        let y = meet_pair(p, qs, gl, gr);
        let out = meet_lists(ps, qs, gl, gr);
        let last = ps.len() - 1;
        assert(ps[last] == p);
        assert(meets_differ(head, qs, gl, gr)) by {
            assert forall|a: int, b: int, c: int, d: int, e: InputPair|
                0 <= a < head.len() && 0 <= c < head.len() && 0 <= b < qs.len() && 0 <= d
                    < qs.len() && #[trigger] meet_in(head[a], qs[b], gl, gr, e)
                    && #[trigger] meet_in(head[c], qs[d], gl, gr, e) implies a == c && b == d by {
                assert(meet_in(ps[a], qs[b], gl, gr, e) && meet_in(ps[c], qs[d], gl, gr, e));
            }
        }
        lemma_meet_once(head, qs, gl, gr);
        assert forall|b: int, d: int, e: InputPair|
            0 <= b < qs.len() && 0 <= d < qs.len() && #[trigger] meet_in(p, qs[b], gl, gr, e)
                && #[trigger] meet_in(p, qs[d], gl, gr, e) implies b == d by {
            assert(meet_in(ps[last], qs[b], gl, gr, e) && meet_in(ps[last], qs[d], gl, gr, e));
        }
        lemma_meet_pair_once(p, qs, gl, gr);
        assert forall|k: int, m: int| 0 <= k < m < out.len() implies out[k] != out[m] by {
            if out[k] == out[m] {
                if m < x.len() {
                    assert(x[k] != x[m]);
                } else if k >= x.len() {
                    assert(y[k - x.len()] != y[m - x.len()]);
                } else {
                    let ab = lemma_meet_from(head, qs, gl, gr, k);
                    let d = lemma_meet_pair_from(p, qs, gl, gr, m - x.len());
                    assert(head[ab.0] == ps[ab.0]);
                    assert(meet_in(ps[ab.0], qs[ab.1], gl, gr, out[m]));
                    assert(meet_in(ps[last], qs[d], gl, gr, out[m]));
                }
            }
        }
    }
}

/// References that the operands use at a child of `t` meet in different ones.
proof fn lemma_child_meets_differ(
    f: Tdd,
    g: Tdd,
    h: Seq<TddLevel>,
    tables: Seq<Vec<Vec<u32>>>,
    t: int,
    side: ChildSide,
    i: int,
    j: int,
    i2: int,
    j2: int,
)
    requires
        plain(f),
        plain(g),
        f.vtree == g.vtree,
        unambiguous(f),
        unambiguous(g),
        0 <= t < f.vtree.n(),
        !f.vtree.leaf_at(t),
        meets(f, g, h, tables, side_child(*f.vtree, t, side)),
        !f.vtree.leaf_at(side_child(*f.vtree, t, side)) ==> table_exact(
            tables[side_child(*f.vtree, t, side)]@,
            eff_width(f.levels@, *f.vtree, side_child(*f.vtree, t, side)),
            eff_width(g.levels@, *f.vtree, side_child(*f.vtree, t, side)),
            eff_width(h, *f.vtree, side_child(*f.vtree, t, side)),
        ),
        uses(f.levels@[t], side, i),
        uses(f.levels@[t], side, i2),
        uses(g.levels@[t], side, j),
        uses(g.levels@[t], side, j2),
        0 <= i < eff_width(f.levels@, *f.vtree, side_child(*f.vtree, t, side)),
        0 <= i2 < eff_width(f.levels@, *f.vtree, side_child(*f.vtree, t, side)),
        0 <= j < eff_width(g.levels@, *f.vtree, side_child(*f.vtree, t, side)),
        0 <= j2 < eff_width(g.levels@, *f.vtree, side_child(*f.vtree, t, side)),
        tables[side_child(*f.vtree, t, side)]@[i]@[j] == tables[side_child(
            *f.vtree,
            t,
            side,
        )]@[i2]@[j2],
        tables[side_child(*f.vtree, t, side)]@[i]@[j] != ZERO_RAW,
    ensures
        i == i2 && j == j2,
{
    let vt = f.vt();
    let c = side_child(vt, t, side);
    assert(vt.node_wf(t));
    assert(vt.node_wf(c));
    if vt.leaf_at(c) {
        lemma_parent(vt, c);
        assert(vt.up(c) == t && side_under(vt, t, c) == side);
        lemma_tame_leaf(f, c);
        lemma_tame_leaf(g, c);
        assert(tables[c]@[i]@[j] == label_meet(i, j));
        assert(tables[c]@[i2]@[j2] == label_meet(i2, j2));
    }
}

/// A pair of an operand and what it uses.
proof fn lemma_pair_uses(f: Tdd, t: int, n: int, k: int, side: ChildSide)
    requires
        plain(f),
        0 <= t < f.vtree.n(),
        !f.vtree.leaf_at(t),
        0 <= n < f.levels@[t].nodes@.len(),
        0 <= k < f.levels@[t].pairs_at(n).len(),
    ensures
        uses(f.levels@[t], side, side_ref(f.levels@[t].pairs_at(n)[k], side) as int),
        side_ref(f.levels@[t].pairs_at(n)[k], side) < eff_width(
            f.levels@,
            *f.vtree,
            side_child(*f.vtree, t, side),
        ),
{
    let vt = f.vt();
    assert(vt.node_wf(t));
    assert(refs_ok(f.levels@, vt, t));
    assert(!f.levels@[t].marginal());
    assert(!f.levels@[vt.left_at(t)].marginal() && !f.levels@[vt.right_at(t)].marginal());
    assert(list_ok(f.levels@, vt, t, f.levels@[t].pairs_at(n)));
    assert(pair_ok(f.levels@, vt, t, f.levels@[t].pairs_at(n)[k]));
    assert(side_ref(f.levels@[t].pairs_at(n)[k], side) == side_ref(
        f.levels@[t].pairs_at(n)[k],
        side,
    ) as int);
}

/// The tables of all levels tell their entries apart.
pub open spec fn tables_exact(f: Tdd, g: Tdd, h: Seq<TddLevel>, tables: Seq<Vec<Vec<u32>>>) -> bool {
    forall|t: int|
        0 <= t < f.vtree.n() && !f.vtree.leaf_at(t) ==> #[trigger] table_exact(
            tables[t]@,
            eff_width(f.levels@, *f.vtree, t),
            eff_width(g.levels@, *f.vtree, t),
            eff_width(h, *f.vtree, t),
        )
}

/// Equal pairs of a product come from the same pairs.
proof fn lemma_same_origin(
    f: Tdd,
    g: Tdd,
    h: Seq<TddLevel>,
    tables: Seq<Vec<Vec<u32>>>,
    t: int,
    at: (int, int, int, int),
    to: (int, int, int, int),
    e: InputPair,
)
    requires
        plain(f),
        plain(g),
        f.vtree == g.vtree,
        unambiguous(f),
        unambiguous(g),
        tables_exact(f, g, h, tables),
        forall|u: int| 0 <= u < f.vtree.n() ==> #[trigger] meets(f, g, h, tables, u),
        0 <= t < f.vtree.n(),
        !f.vtree.leaf_at(t),
        0 <= at.0 < f.levels@[t].nodes@.len(),
        0 <= at.1 < g.levels@[t].nodes@.len(),
        0 <= at.2 < f.levels@[t].pairs_at(at.0).len(),
        0 <= at.3 < g.levels@[t].pairs_at(at.1).len(),
        0 <= to.0 < f.levels@[t].nodes@.len(),
        0 <= to.1 < g.levels@[t].nodes@.len(),
        0 <= to.2 < f.levels@[t].pairs_at(to.0).len(),
        0 <= to.3 < g.levels@[t].pairs_at(to.1).len(),
        meet_in(
            f.levels@[t].pairs_at(at.0)[at.2],
            g.levels@[t].pairs_at(at.1)[at.3],
            tables[f.vtree.left_at(t)]@,
            tables[f.vtree.right_at(t)]@,
            e,
        ),
        meet_in(
            f.levels@[t].pairs_at(to.0)[to.2],
            g.levels@[t].pairs_at(to.1)[to.3],
            tables[f.vtree.left_at(t)]@,
            tables[f.vtree.right_at(t)]@,
            e,
        ),
    ensures
        at == to,
{
    let vt = f.vt();
    assert(vt.node_wf(t));
    let l = vt.left_at(t);
    let r = vt.right_at(t);
    assert(vt.node_wf(l) && vt.node_wf(r));
    let p = f.levels@[t].pairs_at(at.0)[at.2];
    let q = g.levels@[t].pairs_at(at.1)[at.3];
    let p2 = f.levels@[t].pairs_at(to.0)[to.2];
    let q2 = g.levels@[t].pairs_at(to.1)[to.3];
    assert(meets(f, g, h, tables, l));
    assert(meets(f, g, h, tables, r));
    if !vt.leaf_at(l) {
        assert(table_exact(
            tables[l]@,
            eff_width(f.levels@, vt, l),
            eff_width(g.levels@, vt, l),
            eff_width(h, vt, l),
        ));
    }
    if !vt.leaf_at(r) {
        assert(table_exact(
            tables[r]@,
            eff_width(f.levels@, vt, r),
            eff_width(g.levels@, vt, r),
            eff_width(h, vt, r),
        ));
    }
    lemma_pair_uses(f, t, at.0, at.2, ChildSide::Left);
    lemma_pair_uses(f, t, at.0, at.2, ChildSide::Right);
    lemma_pair_uses(f, t, to.0, to.2, ChildSide::Left);
    lemma_pair_uses(f, t, to.0, to.2, ChildSide::Right);
    lemma_pair_uses(g, t, at.1, at.3, ChildSide::Left);
    lemma_pair_uses(g, t, at.1, at.3, ChildSide::Right);
    lemma_pair_uses(g, t, to.1, to.3, ChildSide::Left);
    lemma_pair_uses(g, t, to.1, to.3, ChildSide::Right);
    lemma_child_meets_differ(
        f,
        g,
        h,
        tables,
        t,
        ChildSide::Left,
        p.left.0 as int,
        q.left.0 as int,
        p2.left.0 as int,
        q2.left.0 as int,
    );
    lemma_child_meets_differ(
        f,
        g,
        h,
        tables,
        t,
        ChildSide::Right,
        p.right.0 as int,
        q.right.0 as int,
        p2.right.0 as int,
        q2.right.0 as int,
    );
    assert(p.left == p2.left && p.right == p2.right);
    assert(q.left == q2.left && q.right == q2.right);
    assert(p == p2 && q == q2);
    lemma_unambiguous_lone(f, t);
    lemma_unambiguous_lone(g, t);
}

/// The nodes of a product have pairs, and no pair occurs twice.
pub proof fn lemma_product_lone(
    f: Tdd,
    g: Tdd,
    h: Seq<TddLevel>,
    tables: Seq<Vec<Vec<u32>>>,
    t: int,
)
    requires
        plain(f),
        plain(g),
        f.vtree == g.vtree,
        tables_exact(f, g, h, tables),
        forall|u: int| 0 <= u < f.vtree.n() ==> #[trigger] meets(f, g, h, tables, u),
        0 <= t < f.vtree.n(),
        !f.vtree.leaf_at(t),
    ensures
        full(h[t]),
        unambiguous(f) && unambiguous(g) ==> lone(h[t]),
{
    let vt = f.vt();
    assert(vt.node_wf(t));
    let l = vt.left_at(t);
    let r = vt.right_at(t);
    let wf = eff_width(f.levels@, vt, t);
    let wg = eff_width(g.levels@, vt, t);
    assert(meets(f, g, h, tables, t));
    assert(table_exact(tables[t]@, wf, wg, eff_width(h, vt, t)));
    assert(!f.levels@[t].marginal() && !g.levels@[t].marginal());
    assert(!h[t].marginal());
    let fl = f.levels@[t];
    let gl = g.levels@[t];
    assert forall|k: int| 0 <= k < h[t].nodes@.len() implies exists|i: int, j: int|
        0 <= i < wf && 0 <= j < wg && #[trigger] tables[t]@[i]@[j] == k && (#[trigger] h[t].pairs_at(
            k,
        )) == meet_lists(fl.pairs_at(i), gl.pairs_at(j), tables[l]@, tables[r]@) && h[t].pairs_at(
            k,
        ).len() > 0 by {
        assert(is_entry(tables[t]@, wf, wg, k));
        let (i, j) = choose|i: int, j: int|
            0 <= i < wf && 0 <= j < wg && #[trigger] tables[t]@[i]@[j] == k;
        assert(entry_ok(fl, gl, h[t], tables[l]@, tables[r]@, tables[t]@, i, j));
        assert(h[t].wf());
    }
    assert forall|k: int| 0 <= k < h[t].nodes@.len() implies (
    #[trigger] h[t].pairs_at(k)).len() > 0 by {
        let (i, j) = choose|i: int, j: int|
            0 <= i < wf && 0 <= j < wg && #[trigger] tables[t]@[i]@[j] == k && h[t].pairs_at(k)
                == meet_lists(fl.pairs_at(i), gl.pairs_at(j), tables[l]@, tables[r]@)
                && h[t].pairs_at(k).len() > 0;
    }
    if unambiguous(f) && unambiguous(g) {
        assert forall|x: int, k: int, y: int, m: int|
            0 <= x < h[t].nodes@.len() && 0 <= y < h[t].nodes@.len() && 0 <= k < h[t].pairs_at(
                x,
            ).len() && 0 <= m < h[t].pairs_at(y).len() && #[trigger] h[t].pairs_at(x)[k]
                == #[trigger] h[t].pairs_at(y)[m] implies x == y && k == m by {
            let (i, j) = choose|i: int, j: int|
                0 <= i < wf && 0 <= j < wg && #[trigger] tables[t]@[i]@[j] == x && h[t].pairs_at(x)
                    == meet_lists(fl.pairs_at(i), gl.pairs_at(j), tables[l]@, tables[r]@)
                    && h[t].pairs_at(x).len() > 0;
            let (i2, j2) = choose|i2: int, j2: int|
                0 <= i2 < wf && 0 <= j2 < wg && #[trigger] tables[t]@[i2]@[j2] == y
                    && h[t].pairs_at(y) == meet_lists(
                    fl.pairs_at(i2),
                    gl.pairs_at(j2),
                    tables[l]@,
                    tables[r]@,
                ) && h[t].pairs_at(y).len() > 0;
            let e = h[t].pairs_at(x)[k];
            let ab = lemma_meet_from(fl.pairs_at(i), gl.pairs_at(j), tables[l]@, tables[r]@, k);
            let cd = lemma_meet_from(fl.pairs_at(i2), gl.pairs_at(j2), tables[l]@, tables[r]@, m);
            lemma_same_origin(
                f,
                g,
                h,
                tables,
                t,
                (i, j, ab.0, ab.1),
                (i2, j2, cd.0, cd.1),
                e,
            );
            assert(x == y);
            let ps = fl.pairs_at(i);
            let qs = gl.pairs_at(j);
            assert(meets_differ(ps, qs, tables[l]@, tables[r]@)) by {
                assert forall|a: int, b: int, c: int, d: int, z: InputPair|
                    0 <= a < ps.len() && 0 <= c < ps.len() && 0 <= b < qs.len() && 0 <= d
                        < qs.len() && #[trigger] meet_in(ps[a], qs[b], tables[l]@, tables[r]@, z)
                        && #[trigger] meet_in(
                        ps[c],
                        qs[d],
                        tables[l]@,
                        tables[r]@,
                        z,
                    ) implies a == c && b == d by {
                    lemma_same_origin(f, g, h, tables, t, (i, j, a, b), (i, j, c, d), z);
                }
            }
            lemma_meet_once(ps, qs, tables[l]@, tables[r]@);
            let out = meet_lists(ps, qs, tables[l]@, tables[r]@);
            if k < m {
                assert(out[k] != out[m]);
            } else if m < k {
                assert(out[m] != out[k]);
            }
        }
    }
}

/// A label that a product names is the meet of labels that the operands name.
proof fn lemma_product_label(
    f: Tdd,
    g: Tdd,
    h: Seq<TddLevel>,
    tables: Seq<Vec<Vec<u32>>>,
    t: int,
    side: ChildSide,
    x: int,
) -> (ij: (int, int))
    requires
        plain(f),
        plain(g),
        f.vtree == g.vtree,
        tables_exact(f, g, h, tables),
        forall|u: int| 0 <= u < f.vtree.n() ==> #[trigger] meets(f, g, h, tables, u),
        0 <= t < f.vtree.n(),
        !f.vtree.leaf_at(t),
        f.vtree.leaf_at(side_child(*f.vtree, t, side)),
        uses(h[t], side, x),
    ensures
        uses(f.levels@[t], side, ij.0),
        uses(g.levels@[t], side, ij.1),
        0 <= ij.0 < 3,
        0 <= ij.1 < 3,
        label_meet(ij.0, ij.1) == x,
        x != ZERO_RAW,
{
    let vt = f.vt();
    assert(vt.node_wf(t));
    let l = vt.left_at(t);
    let r = vt.right_at(t);
    assert(vt.node_wf(l) && vt.node_wf(r));
    let wf = eff_width(f.levels@, vt, t);
    let wg = eff_width(g.levels@, vt, t);
    assert(meets(f, g, h, tables, t));
    assert(table_exact(tables[t]@, wf, wg, eff_width(h, vt, t)));
    assert(!f.levels@[t].marginal() && !g.levels@[t].marginal());
    assert(!h[t].marginal());
    let (n, k) = choose|n: int, k: int|
        0 <= n < h[t].nodes@.len() && 0 <= k < h[t].pairs_at(n).len() && side_ref(
            #[trigger] h[t].pairs_at(n)[k],
            side,
        ) == x;
    assert(is_entry(tables[t]@, wf, wg, n));
    let (i, j) = choose|i: int, j: int|
        0 <= i < wf && 0 <= j < wg && #[trigger] tables[t]@[i]@[j] == n;
    let fl = f.levels@[t];
    let gl = g.levels@[t];
    assert(h[t].wf());
    assert(entry_ok(fl, gl, h[t], tables[l]@, tables[r]@, tables[t]@, i, j));
    let ab = lemma_meet_from(fl.pairs_at(i), gl.pairs_at(j), tables[l]@, tables[r]@, k);
    lemma_pair_uses(f, t, i, ab.0, side);
    lemma_pair_uses(g, t, j, ab.1, side);
    let c = side_child(vt, t, side);
    assert(meets(f, g, h, tables, c));
    let a = side_ref(fl.pairs_at(i)[ab.0], side) as int;
    let b = side_ref(gl.pairs_at(j)[ab.1], side) as int;
    assert(tables[c]@[a]@[b] == label_meet(a, b));
    (a, b)
}

/// A product of unambiguous diagrams is unambiguous.
pub proof fn lemma_product_unambiguous(
    f: Tdd,
    g: Tdd,
    h: Tdd,
    tables: Seq<Vec<Vec<u32>>>,
)
    requires
        plain(f),
        plain(g),
        f.vtree == g.vtree,
        h.vtree == f.vtree,
        unambiguous(f),
        unambiguous(g),
        tables_exact(f, g, h.levels@, tables),
        forall|u: int| 0 <= u < f.vtree.n() ==> #[trigger] meets(f, g, h.levels@, tables, u),
    ensures
        unambiguous(h),
{
    let vt = f.vt();
    assert forall|t: int, i: int, k: int, j: int, m: int|
        0 <= t < h.vtree.n() && !h.vtree.leaf_at(t) && 0 <= i < h.levels@[t].nodes@.len() && 0 <= j
            < h.levels@[t].nodes@.len() && 0 <= k < h.levels@[t].pairs_at(i).len() && 0 <= m
            < h.levels@[t].pairs_at(j).len() && #[trigger] h.levels@[t].pairs_at(i)[k]
            == #[trigger] h.levels@[t].pairs_at(j)[m] implies i == j && k == m by {
        lemma_product_lone(f, g, h.levels@, tables, t);
    }
    assert forall|t: int|
        0 <= t < vt.n() && vt.leaf_at(t) && #[trigger] named(
            h,
            t,
            ONE_LEAF_RAW as int,
        ) implies !named(h, t, POS_LEAF_RAW as int) && !named(h, t, NEG_LEAF_RAW as int) by {
        assert(vt.node_wf(t));
        if vt.parent_at(t) is Some {
            lemma_parent(vt, t);
            let p = vt.up(t);
            let side = side_under(vt, p, t);
            assert(side_child(vt, p, side) == t);
            lemma_tame_leaf(f, t);
            lemma_tame_leaf(g, t);
            lemma_named_uses(h, t, ONE_LEAF_RAW as int);
            lemma_named_uses(h, t, POS_LEAF_RAW as int);
            lemma_named_uses(h, t, NEG_LEAF_RAW as int);
            let one = lemma_product_label(f, g, h.levels@, tables, p, side, ONE_LEAF_RAW as int);
            assert(one.0 == 0 && one.1 == 0);
            if uses(h.levels@[p], side, POS_LEAF_RAW as int) {
                let x = lemma_product_label(f, g, h.levels@, tables, p, side, POS_LEAF_RAW as int);
                assert(x.0 == 0 && x.1 == 0);
            }
            if uses(h.levels@[p], side, NEG_LEAF_RAW as int) {
                let x = lemma_product_label(f, g, h.levels@, tables, p, side, NEG_LEAF_RAW as int);
                assert(x.0 == 0 && x.1 == 0);
            }
        } else {
            assert(vt.root.0 == t);
        }
    }
}

} // verus!
