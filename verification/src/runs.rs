//! Repetitions in pair lists.

use crate::level::InputPair;
use crate::sums::{lemma_total_push, total};
use vstd::prelude::*;

verus! {

/// How often `p` occurs in `list`.
pub open spec fn count_in(list: Seq<InputPair>, p: InputPair) -> nat
    decreases list.len(),
{
    if list.len() == 0 {
        0
    } else {
        count_in(list.drop_last(), p) + if list.last() == p {
            1nat
        } else {
            0nat
        }
    }
}

/// The distinct pairs of `list`, in the order of their first occurrences.
pub open spec fn firsts(list: Seq<InputPair>) -> Seq<InputPair>
    decreases list.len(),
{
    if list.len() == 0 {
        Seq::empty()
    } else if count_in(list.drop_last(), list.last()) > 0 {
        firsts(list.drop_last())
    } else {
        firsts(list.drop_last()).push(list.last())
    }
}

/// The distinct pairs are distinct, and they are the pairs that occur.
pub proof fn lemma_firsts(list: Seq<InputPair>)
    ensures
        forall|i: int, j: int|
            0 <= i < j < firsts(list).len() ==> firsts(list)[i] != firsts(list)[j],
        forall|i: int| 0 <= i < firsts(list).len() ==> count_in(list, #[trigger] firsts(list)[i]) > 0,
        forall|p: InputPair| #[trigger] count_in(list, p) > 0 ==> firsts(list).contains(p),
        firsts(list).len() <= list.len(),
    decreases list.len(),
{
    if list.len() > 0 {
        let rest = list.drop_last();
        lemma_firsts(rest);
        let f = firsts(list);
        let g = firsts(rest);
        assert forall|i: int| 0 <= i < f.len() implies count_in(list, #[trigger] f[i]) > 0 by {
            if i < g.len() {
                assert(f[i] == g[i]);
                assert(count_in(rest, g[i]) > 0);
            }
        }
        assert forall|i: int, j: int| 0 <= i < j < f.len() implies f[i] != f[j] by {
            if j == g.len() {
                assert(count_in(rest, g[i]) > 0);
                assert(f[j] == list.last());
            }
        }
        assert forall|p: InputPair| #[trigger] count_in(list, p) > 0 implies f.contains(p) by {
            if count_in(rest, p) > 0 {
                assert(g.contains(p));
                let i = choose|i: int| 0 <= i < g.len() && g[i] == p;
                assert(f[i] == p);
            } else {
                assert(list.last() == p);
                assert(f[f.len() - 1] == p);
            }
        }
    }
}

/// Adding one at a single element adds its term once.
proof fn lemma_total_bump(
    d: Seq<InputPair>,
    p: InputPair,
    f: spec_fn(InputPair) -> nat,
    g: spec_fn(InputPair) -> nat,
    v: nat,
)
    requires
        forall|i: int, j: int| 0 <= i < j < d.len() ==> d[i] != d[j],
        g(p) == f(p) + v,
        forall|q: InputPair| q != p ==> #[trigger] g(q) == f(q),
    ensures
        total(d, g) == total(d, f) + if d.contains(p) {
            v
        } else {
            0
        },
    decreases d.len(),
{
    if d.len() > 0 {
        let rest = d.drop_last();
        assert forall|i: int, j: int| 0 <= i < j < rest.len() implies rest[i] != rest[j] by {
            assert(rest[i] == d[i] && rest[j] == d[j]);
        }
        lemma_total_bump(rest, p, f, g, v);
        let x = d.last();
        if x == p {
            assert(!rest.contains(p)) by {
                if rest.contains(p) {
                    let i = choose|i: int| 0 <= i < rest.len() && rest[i] == p;
                    assert(d[i] == d[d.len() - 1]);
                }
            }
            assert(d[d.len() - 1] == p);
        } else {
            assert(g(x) == f(x));
            if d.contains(p) {
                let i = choose|i: int| 0 <= i < d.len() && d[i] == p;
                assert(rest[i] == p);
            }
            if rest.contains(p) {
                let i = choose|i: int| 0 <= i < rest.len() && rest[i] == p;
                assert(d[i] == p);
            }
        }
    } else {
        assert(!d.contains(p));
    }
}

/// The sum of a list is the sum over its distinct pairs, each as often as it
/// occurs.
pub proof fn lemma_runs_total(list: Seq<InputPair>, f: spec_fn(InputPair) -> nat)
    ensures
        total(firsts(list), |p: InputPair| count_in(list, p) * f(p)) == total(list, f),
    decreases list.len(),
{
    let g = |p: InputPair| count_in(list, p) * f(p);
    if list.len() > 0 {
        let rest = list.drop_last();
        let x = list.last();
        lemma_runs_total(rest, f);
        lemma_firsts(rest);
        let h = |p: InputPair| count_in(rest, p) * f(p);
        assert(g(x) == h(x) + f(x)) by {
            assert((count_in(rest, x) + 1) * f(x) == count_in(rest, x) * f(x) + f(x))
                by (nonlinear_arith);
        }
        lemma_total_bump(firsts(rest), x, h, g, f(x));
        if count_in(rest, x) > 0 {
            assert(firsts(rest).contains(x));
        } else {
            assert(!firsts(rest).contains(x)) by {
                if firsts(rest).contains(x) {
                    let i = choose|i: int| 0 <= i < firsts(rest).len() && firsts(rest)[i] == x;
                    assert(count_in(rest, firsts(rest)[i]) > 0);
                }
            }
            lemma_total_push(firsts(rest), x, g);
            assert(h(x) == 0) by (nonlinear_arith)
                requires
                    h(x) == count_in(rest, x) * f(x),
                    count_in(rest, x) == 0,
            ;
        }
    }
}

/// A longer list has no fewer occurrences.
pub proof fn lemma_count_take(list: Seq<InputPair>, p: InputPair, k: int)
    requires
        0 <= k <= list.len(),
    ensures
        count_in(list.take(k), p) <= count_in(list, p) <= count_in(list.take(k), p) + list.len() - k,
    decreases list.len() - k,
{
    if k < list.len() {
        lemma_count_take(list, p, k + 1);
        assert(list.take(k + 1).drop_last() =~= list.take(k));
    } else {
        assert(list.take(k) =~= list);
    }
}

/// A pair that stands in the list occurs in it.
pub proof fn lemma_count_at(list: Seq<InputPair>, k: int)
    requires
        0 <= k < list.len(),
    ensures
        count_in(list, list[k]) > 0,
{
    lemma_count_take(list, list[k], k + 1);
    assert(list.take(k + 1).last() == list[k]);
}

} // verus!
