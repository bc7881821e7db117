//! Folding the pair lists of a level into a column of values.

use crate::bigint::{big_val, big_zero};
use crate::counts::{add_product, Count, CountRead, CountRef, CountVec, STREAM_OVERFLOW};
use crate::level::{InputPair, TddLevel};
use crate::query::pins::{below, lemma_below_one, lemma_below_rank};
use crate::query::weight::{LogBits, WeightVal};
use crate::rational::Rat;
use crate::reserve::ReservePolicy;
use crate::sums::{lemma_total_push, total};
use crate::vtree::{Vtree, VtreeIdx};
use vstd::prelude::*;

verus! {

/// How a pair's reference is read as a count.
pub trait CountReader {
    /// Whether `raw` can be read.
    spec fn readable(&self, raw: u32) -> bool;

    /// The count that `raw` stands for.
    spec fn value(&self, raw: u32) -> nat;

    /// Whether that count comes from the fast lane.
    spec fn is_fast(&self, raw: u32) -> bool;

    /// Read `raw`.
    fn read(&self, raw: u32) -> (r: CountRead<'_>)
        requires
            self.readable(raw),
        ensures
            r.val() == self.value(raw),
            r is Fast <==> self.is_fast(raw),
    ;
}

/// References that are slots of a column.
impl CountReader for CountVec {
    open spec fn readable(&self, raw: u32) -> bool {
        self.wf() && raw < self.fast@.len()
    }

    open spec fn value(&self, raw: u32) -> nat {
        self.at(raw as int)
    }

    open spec fn is_fast(&self, raw: u32) -> bool {
        self.fast@[raw as int] != STREAM_OVERFLOW
    }

    fn read(&self, raw: u32) -> (r: CountRead<'_>) {
        self.get(raw as usize)
    }
}

impl<'a> CountReader for CountRef<'a> {
    open spec fn readable(&self, raw: u32) -> bool {
        self.wf() && raw < self.fast@.len()
    }

    open spec fn value(&self, raw: u32) -> nat {
        self.at(raw as int)
    }

    open spec fn is_fast(&self, raw: u32) -> bool {
        self.fast@[raw as int] != STREAM_OVERFLOW
    }

    fn read(&self, raw: u32) -> (r: CountRead<'_>) {
        self.get(raw as usize)
    }
}

/// The product that a pair contributes.
pub open spec fn product<L: CountReader, R: CountReader>(l: L, r: R) -> spec_fn(InputPair) -> nat {
    |p: InputPair| l.value(p.left.0) * r.value(p.right.0)
}

/// Both references of every pair can be read.
pub open spec fn all_readable<L: CountReader, R: CountReader>(
    list: Seq<InputPair>,
    l: L,
    r: R,
) -> bool {
    forall|k: int|
        0 <= k < list.len() ==> l.readable((#[trigger] list[k]).left.0) && r.readable(
            list[k].right.0,
        )
}

/// Both references of every pair are fast.
pub open spec fn all_fast<L: CountReader, R: CountReader>(
    list: Seq<InputPair>,
    l: L,
    r: R,
) -> bool {
    forall|k: int|
        0 <= k < list.len() ==> l.is_fast((#[trigger] list[k]).left.0) && r.is_fast(
            list[k].right.0,
        )
}

/// A sum is at least each of its prefixes.
pub proof fn lemma_prefix_total<A>(s: Seq<A>, n: int, f: spec_fn(A) -> nat)
    requires
        0 <= n <= s.len(),
    ensures
        total(s.take(n), f) <= total(s, f),
    decreases s.len() - n,
{
    if n < s.len() {
        lemma_prefix_total(s, n + 1, f);
        assert(s.take(n + 1) =~= s.take(n).push(s[n]));
        lemma_total_push(s.take(n), s[n], f);
    } else {
        assert(s.take(n) =~= s);
    }
}

/// Counting folds.
pub struct IntFold;

impl IntFold {
    /// The sum of the products of a pair list: in the fast lane when every
    /// operand is there and the sum stays below the marker.
    pub fn fold<L: CountReader, R: CountReader>(pairs: &[InputPair], l: &L, r: &R) -> (out: Count)
        requires
            all_readable(pairs@, *l, *r),
        ensures
            out.wf(),
            out.val() == total(pairs@, product(*l, *r)),
            out is Fast <==> all_fast(pairs@, *l, *r) && total(pairs@, product(*l, *r))
                < STREAM_OVERFLOW,
    {
        let ghost f = product(*l, *r);
        let n: usize = pairs.len();
        let mut sum: u128 = 0;
        let mut overflowed = false;
        let mut k: usize = 0;
        assert(pairs@.take(0) =~= Seq::empty());
        while k < n && !overflowed
            invariant
                f == product(*l, *r),
                n == pairs@.len(),
                0 <= k <= n,
                all_readable(pairs@, *l, *r),
                !overflowed ==> sum == total(pairs@.take(k as int), f),
                !overflowed ==> all_fast(pairs@.take(k as int), *l, *r),
                overflowed ==> !all_fast(pairs@, *l, *r) || total(pairs@, f) > u128::MAX,
            decreases n - k, !overflowed as int,
        {
            let pair: InputPair = pairs[k];
            proof {
                assert(pairs@.take(k + 1) =~= pairs@.take(k as int).push(pair));
                lemma_total_push(pairs@.take(k as int), pair, f);
                lemma_prefix_total(pairs@, k + 1, f);
            }
            match (l.read(pair.left.0), r.read(pair.right.0)) {
                (CountRead::Fast(a), CountRead::Fast(b)) => {
                    let next: Option<u128> = match a.checked_mul(b) {
                        Some(p) => sum.checked_add(p),
                        None => None,
                    };
                    assert(f(pair) == a as nat * b as nat);
                    match next {
                        Some(s) => {
                            sum = s;
                            k += 1;
                            proof {
                                assert forall|j: int| 0 <= j < k implies l.is_fast(
                                    (#[trigger] pairs@.take(k as int)[j]).left.0,
                                ) && r.is_fast(pairs@.take(k as int)[j].right.0) by {
                                    if j < k - 1 {
                                        assert(pairs@.take(k - 1)[j] == pairs@[j]);
                                    }
                                }
                            }
                        },
                        None => {
                            overflowed = true;
                        },
                    }
                },
                _ => {
                    assert(pairs@[k as int] == pair);
                    overflowed = true;
                },
            }
        }
        if !overflowed {
            assert(pairs@.take(n as int) =~= pairs@);
            return Count::from_u128(sum);
        }
        let mut big = big_zero();
        let mut j: usize = 0;
        while j < n
            invariant
                f == product(*l, *r),
                n == pairs@.len(),
                0 <= j <= n,
                all_readable(pairs@, *l, *r),
                big_val(big) == total(pairs@.take(j as int), f),
            decreases n - j,
        {
            let pair: InputPair = pairs[j];
            proof {
                assert(pairs@.take(j + 1) =~= pairs@.take(j as int).push(pair));
                lemma_total_push(pairs@.take(j as int), pair, f);
            }
            add_product(&mut big, &l.read(pair.left.0), &r.read(pair.right.0));
            j += 1;
        }
        assert(pairs@.take(n as int) =~= pairs@);
        Count::Big(big)
    }
}

/// How a pair's reference is read as a weight.
pub trait WeightReader {
    /// Whether `raw` can be read.
    spec fn readable(&self, raw: u32) -> bool;

    /// The weight that `raw` stands for.
    spec fn value(&self, raw: u32) -> Rat;

    /// Read `raw`.
    fn read(&self, raw: u32) -> (r: &WeightVal)
        requires
            self.readable(raw),
        ensures
            r.wf(),
            r.is_exact(),
            r.val() == self.value(raw),
    ;
}

/// References that are slots of a list of exact weights.
impl WeightReader for Vec<WeightVal> {
    open spec fn readable(&self, raw: u32) -> bool {
        raw < self@.len() && self@[raw as int].wf() && self@[raw as int].is_exact()
    }

    open spec fn value(&self, raw: u32) -> Rat {
        self@[raw as int].val()
    }

    fn read(&self, raw: u32) -> (r: &WeightVal) {
        &self[raw as usize]
    }
}

/// The weight of a pair list, added to `zero` in list order.
pub open spec fn weight_sum<L: WeightReader, R: WeightReader>(
    list: Seq<InputPair>,
    l: L,
    r: R,
    zero: Rat,
) -> Rat
    decreases list.len(),
{
    if list.len() == 0 {
        zero
    } else {
        weight_sum(list.drop_last(), l, r, zero).plus(
            l.value(list.last().left.0).times(r.value(list.last().right.0)),
        )
    }
}

/// Weight folds.
pub struct WeightFold;

impl WeightFold {
    /// The sum of the products of a pair list, on top of `zero`.
    pub fn fold<L: WeightReader, R: WeightReader>(
        pairs: &[InputPair],
        l: &L,
        r: &R,
        zero: WeightVal,
    ) -> (out: WeightVal)
        requires
            zero.wf(),
            zero.is_exact(),
            forall|k: int|
                0 <= k < pairs@.len() ==> l.readable((#[trigger] pairs@[k]).left.0) && r.readable(
                    pairs@[k].right.0,
                ),
        ensures
            out.wf(),
            out.is_exact(),
            out.val() == weight_sum(pairs@, *l, *r, zero.val()),
    {
        let ghost z = zero.val();
        let mut sum = zero;
        let n: usize = pairs.len();
        let mut k: usize = 0;
        while k < n
            invariant
                n == pairs@.len(),
                0 <= k <= n,
                forall|k: int|
                    0 <= k < pairs@.len() ==> l.readable((#[trigger] pairs@[k]).left.0)
                        && r.readable(pairs@[k].right.0),
                sum.wf(),
                sum.is_exact(),
                sum.val() == weight_sum(pairs@.take(k as int), *l, *r, z),
            decreases n - k,
        {
            let pair: InputPair = pairs[k];
            let a = l.read(pair.left.0);
            let b = r.read(pair.right.0);
            sum.add_assign(&a.mul(b));
            assert(pairs@.take(k + 1).drop_last() =~= pairs@.take(k as int));
            k += 1;
        }
        assert(pairs@.take(n as int) =~= pairs@);
        sum
    }
}

/// How long a column lives during a pass.
#[derive(Clone, Copy, Debug, PartialEq, Eq, Structural)]
pub enum ColumnRetention {
    /// Every column stays.
    All,
    /// A column is released once its parent's column is complete.
    Frontier,
}

/// A kind of value that levels fold to, with its columns.
pub trait MargFold {
    /// One value.
    type Scalar;

    /// A column of values.
    type Col;

    /// What a value denotes.
    type Abs;

    /// Whether a value can be stored.
    spec fn scalar_ok(v: Self::Scalar) -> bool;

    /// What `v` denotes.
    spec fn scalar_abs(v: Self::Scalar) -> Self::Abs;

    /// Whether a column is well formed.
    spec fn col_ok(c: Self::Col) -> bool;

    /// What the slots of a column denote.
    spec fn col_abs(c: Self::Col) -> Seq<Self::Abs>;

    /// Whether `v` is what an empty slot starts from.
    spec fn is_zero(v: Self::Scalar) -> bool;

    /// A column of `width` copies of `zero`.
    fn alloc_col<R: ReservePolicy>(policy: &mut R, width: usize, zero: &Self::Scalar) -> (r: Result<
        Self::Col,
        R::Err,
    >)
        requires
            Self::scalar_ok(*zero),
            Self::is_zero(*zero),
        ensures
            R::carried(*old(policy), *final(policy)),
            R::infallible() ==> r is Ok,
            r matches Ok(c) ==> Self::col_ok(c) && Self::col_abs(c) == Seq::new(
                width as nat,
                |i: int| Self::scalar_abs(*zero),
            ),
    ;

    /// Store `v` at slot `i`.
    fn set_col<R: ReservePolicy>(policy: &mut R, col: &mut Self::Col, i: usize, v: Self::Scalar) -> (r:
        Result<(), R::Err>)
        requires
            Self::col_ok(*old(col)),
            i < Self::col_abs(*old(col)).len(),
            Self::scalar_ok(v),
        ensures
            Self::col_ok(*final(col)),
            R::carried(*old(policy), *final(policy)),
            R::infallible() ==> r is Ok,
            r is Ok ==> Self::col_abs(*final(col)) == Self::col_abs(*old(col)).update(
                i as int,
                Self::scalar_abs(v),
            ),
            r is Err ==> Self::col_abs(*final(col)) == Self::col_abs(*old(col)),
    ;

    /// An empty column, with room for `cap` values where the kind reserves
    /// ahead.
    fn try_with_capacity<R: ReservePolicy>(policy: &mut R, cap: usize) -> (r: Result<
        Self::Col,
        R::Err,
    >)
        ensures
            R::carried(*old(policy), *final(policy)),
            R::infallible() ==> r is Ok,
            r matches Ok(c) ==> Self::col_ok(c) && Self::col_abs(c).len() == 0,
    ;

    /// Append `v`.
    fn push_col<R: ReservePolicy>(policy: &mut R, col: &mut Self::Col, v: Self::Scalar) -> (r:
        Result<(), R::Err>)
        requires
            Self::col_ok(*old(col)),
            Self::scalar_ok(v),
        ensures
            Self::col_ok(*final(col)),
            R::carried(*old(policy), *final(policy)),
            R::infallible() ==> r is Ok,
            r is Ok ==> Self::col_abs(*final(col)) == Self::col_abs(*old(col)).push(
                Self::scalar_abs(v),
            ),
            r is Err ==> Self::col_abs(*final(col)) == Self::col_abs(*old(col)),
    ;

    /// Number of slots.
    fn col_len(col: &Self::Col) -> (r: usize)
        requires
            Self::col_ok(*col),
        ensures
            r == Self::col_abs(*col).len(),
    ;
}

impl MargFold for IntFold {
    type Scalar = Count;

    type Col = CountVec;

    type Abs = nat;

    open spec fn scalar_ok(v: Count) -> bool {
        v.wf()
    }

    open spec fn scalar_abs(v: Count) -> nat {
        v.val()
    }

    open spec fn col_ok(c: CountVec) -> bool {
        c.wf()
    }

    open spec fn col_abs(c: CountVec) -> Seq<nat> {
        c.vals()
    }

    open spec fn is_zero(v: Count) -> bool {
        v.val() == 0
    }

    fn alloc_col<R: ReservePolicy>(policy: &mut R, width: usize, zero: &Count) -> (r: Result<
        CountVec,
        R::Err,
    >) {
        match CountVec::try_with_width(policy, width) {
            Ok(c) => {
                assert(c.vals() =~= Seq::new(width as nat, |i: int| Self::scalar_abs(*zero)));
                Ok(c)
            },
            Err(e) => Err(e),
        }
    }

    fn set_col<R: ReservePolicy>(policy: &mut R, col: &mut CountVec, i: usize, v: Count) -> (r:
        Result<(), R::Err>) {
        col.set(policy, i, v)
    }

    fn try_with_capacity<R: ReservePolicy>(policy: &mut R, cap: usize) -> (r: Result<
        CountVec,
        R::Err,
    >) {
        CountVec::try_with_capacity(policy, cap)
    }

    fn push_col<R: ReservePolicy>(policy: &mut R, col: &mut CountVec, v: Count) -> (r: Result<
        (),
        R::Err,
    >) {
        col.push(policy, v)
    }

    fn col_len(col: &CountVec) -> (r: usize) {
        col.len()
    }
}

/// What a weight denotes: an exact number, or the bits of a logarithm.
pub open spec fn weight_abs(v: WeightVal) -> (Option<Rat>, Option<LogBits>) {
    match v {
        WeightVal::Log(s) => (None, Some(s)),
        _ => (Some(v.val()), None),
    }
}

/// What the weights of a list denote.
pub open spec fn weights_abs(s: Seq<WeightVal>) -> Seq<(Option<Rat>, Option<LogBits>)> {
    Seq::new(s.len(), |i: int| weight_abs(s[i]))
}

impl MargFold for WeightFold {
    type Scalar = WeightVal;

    type Col = Vec<WeightVal>;

    type Abs = (Option<Rat>, Option<LogBits>);

    open spec fn scalar_ok(v: WeightVal) -> bool {
        v.wf()
    }

    open spec fn scalar_abs(v: WeightVal) -> (Option<Rat>, Option<LogBits>) {
        weight_abs(v)
    }

    open spec fn col_ok(c: Vec<WeightVal>) -> bool {
        forall|i: int| 0 <= i < c@.len() ==> (#[trigger] c@[i]).wf()
    }

    open spec fn col_abs(c: Vec<WeightVal>) -> Seq<(Option<Rat>, Option<LogBits>)> {
        weights_abs(c@)
    }

    open spec fn is_zero(v: WeightVal) -> bool {
        match v {
            WeightVal::Log(s) => s.sign == 0,
            _ => v.val() == Rat::whole(0),
        }
    }

    fn alloc_col<R: ReservePolicy>(policy: &mut R, width: usize, zero: &WeightVal) -> (r: Result<
        Vec<WeightVal>,
        R::Err,
    >) {
        let mut v: Vec<WeightVal> = Vec::new();
        match policy.reserve_exact(&mut v, width) {
            Ok(()) => {},
            Err(e) => {
                return Err(e);
            },
        }
        let mut i: usize = 0;
        while i < width
            invariant
                0 <= i <= width,
                v@.len() == i,
                zero.wf(),
                forall|k: int|
                    0 <= k < i ==> (#[trigger] v@[k]).wf() && weight_abs(v@[k]) == weight_abs(*zero),
            decreases width - i,
        {
            v.push(zero.clone());
            i += 1;
        }
        assert(weights_abs(v@) =~= Seq::new(width as nat, |i: int| weight_abs(*zero)));
        Ok(v)
    }

    fn set_col<R: ReservePolicy>(
        policy: &mut R,
        col: &mut Vec<WeightVal>,
        i: usize,
        v: WeightVal,
    ) -> (r: Result<(), R::Err>) {
        let ghost before = col@;
        col.set(i, v);
        proof {
            R::carried_refl(*policy);
            assert(weights_abs(col@) =~= weights_abs(before).update(i as int, weight_abs(v)));
        }
        Ok(())
    }

    fn try_with_capacity<R: ReservePolicy>(policy: &mut R, cap: usize) -> (r: Result<
        Vec<WeightVal>,
        R::Err,
    >) {
        proof {
            R::carried_refl(*policy);
        }
        Ok(Vec::new())
    }

    fn push_col<R: ReservePolicy>(policy: &mut R, col: &mut Vec<WeightVal>, v: WeightVal) -> (r:
        Result<(), R::Err>) {
        let ghost before = col@;
        col.push(v);
        proof {
            R::carried_refl(*policy);
            assert(weights_abs(col@) =~= weights_abs(before).push(weight_abs(v)));
        }
        Ok(())
    }

    fn col_len(col: &Vec<WeightVal>) -> (r: usize) {
        col.len()
    }
}

/// The values that a bottom-up walk over a diagram is to compute, and which
/// levels have theirs already.
pub trait FoldShape<F: MargFold>: Sized {
    /// The variable tree walked over.
    spec fn tree(&self) -> Vtree;

    /// The levels walked over.
    spec fn level_seq(&self) -> Seq<TddLevel>;

    /// Whether the context can be walked.
    spec fn wf(&self) -> bool;

    /// Whether the values of level `li` are at hand without a column.
    spec fn done(&self, li: int) -> bool;

    /// The value of node `i` of level `li`.
    spec fn node_value(&self, li: int, i: int) -> F::Abs;

    /// The value of a slot that holds no node.
    spec fn empty_value(&self) -> F::Abs;
}

/// How a bottom-up walk computes the value of one node.
pub trait FoldContext<F: MargFold>: FoldShape<F> {
    /// Whether the values of level `li` are at hand without a column.
    fn already_done(&self, li: usize) -> (r: bool)
        requires
            self.wf(),
            li < self.tree().n(),
        ensures
            r == self.done(li as int),
    ;

    /// The value of node `i` of level `li`, read off the columns of its
    /// children `l_i` and `r_i`.
    fn fold_node(
        &self,
        li: usize,
        i: usize,
        l_i: usize,
        r_i: usize,
        computed: &Vec<Option<F::Col>>,
    ) -> (r: F::Scalar)
        requires
            self.wf(),
            li < self.tree().n(),
            !self.tree().leaf_at(li as int),
            !self.done(li as int),
            l_i == self.tree().left_at(li as int),
            r_i == self.tree().right_at(li as int),
            i < self.level_seq()[li as int].nodes@.len(),
            computed@.len() == self.tree().n(),
            ready::<F, Self>(*self, computed@, l_i as int),
            ready::<F, Self>(*self, computed@, r_i as int),
        ensures
            F::scalar_ok(r),
            F::scalar_abs(r) == self.node_value(li as int, i as int),
    ;
}

/// The node at `i` holds pairs.
pub open spec fn holds_pairs(level: TddLevel, i: int) -> bool {
    &&& 0 <= i < level.nodes@.len()
    &&& level.nodes@[i] is Inline || level.nodes@[i] is Multi || level.nodes@[i] is Extended
}

/// The values of level `li`.
pub open spec fn context_col<F: MargFold, C: FoldShape<F>>(ctx: C, li: int) -> Seq<F::Abs> {
    Seq::new(
        ctx.level_seq()[li].spec_width() as nat,
        |i: int|
            if holds_pairs(ctx.level_seq()[li], i) {
                ctx.node_value(li, i)
            } else {
                ctx.empty_value()
            },
    )
}

/// A column holds the values of level `li`.
pub open spec fn right_col<F: MargFold, C: FoldShape<F>>(ctx: C, li: int, c: F::Col) -> bool {
    F::col_ok(c) && F::col_abs(c) == context_col::<F, C>(ctx, li)
}

/// The values of level `c` can be read: it is a leaf, or done, or has its
/// column.
pub open spec fn ready<F: MargFold, C: FoldShape<F>>(
    ctx: C,
    computed: Seq<Option<F::Col>>,
    c: int,
) -> bool {
    ctx.tree().leaf_at(c) || ctx.done(c) || (computed[c] is Some && right_col::<F, C>(
        ctx,
        c,
        computed[c]->0,
    ))
}

/// Every column present is right.
pub open spec fn all_right<F: MargFold, C: FoldShape<F>>(
    ctx: C,
    computed: Seq<Option<F::Col>>,
) -> bool {
    forall|t: int|
        0 <= t < computed.len() && (#[trigger] computed[t]) is Some ==> right_col::<F, C>(
            ctx,
            t,
            computed[t]->0,
        )
}

/// A walk from level `li` touches only levels that are `li` or lie below it.
pub open spec fn untouched<T>(vt: Vtree, li: int, a: Seq<Option<T>>, b: Seq<Option<T>>) -> bool {
    &&& a.len() == b.len()
    &&& forall|t: int| 0 <= t < a.len() && !below(vt, li, t) ==> #[trigger] b[t] == a[t]
}

/// A walk from level `u` computes the column of level `t`: it comes to `t`
/// through levels that are neither leaves nor done and have no column, and `t`
/// is such a level too.
pub open spec fn walked<F: MargFold, C: FoldShape<F>>(
    ctx: C,
    computed: Seq<Option<F::Col>>,
    u: int,
    t: int,
) -> bool
    decreases ctx.tree().rank_at(u),
{
    let vt = ctx.tree();
    &&& !vt.leaf_at(u)
    &&& !ctx.done(u)
    &&& computed[u] is None
    &&& u == t || (0 <= vt.rank_at(vt.left_at(u)) < vt.rank_at(u) && 0 <= vt.rank_at(vt.right_at(u))
        < vt.rank_at(u) && (walked::<F, C>(ctx, computed, vt.left_at(u), t) || walked::<F, C>(
        ctx,
        computed,
        vt.right_at(u),
        t,
    )))
}

/// What a walk from level `li` leaves besides the values. Under `All` every
/// earlier column stays and every level walked has one. Under `Frontier` the
/// column of `li` is the one new column, and the children of a level walked
/// have theirs taken away.
pub open spec fn retained<F: MargFold, C: FoldShape<F>>(
    retain: ColumnRetention,
    ctx: C,
    li: int,
    a: Seq<Option<F::Col>>,
    b: Seq<Option<F::Col>>,
) -> bool {
    let vt = ctx.tree();
    match retain {
        ColumnRetention::All => forall|t: int|
            0 <= t < a.len() ==> if walked::<F, C>(ctx, a, li, t) {
                (#[trigger] b[t]) is Some
            } else {
                b[t] == a[t]
            },
        ColumnRetention::Frontier => forall|t: int|
            0 <= t < a.len() && t != li ==> (#[trigger] b[t]) == if vt.parent_at(t) is Some
                && walked::<F, C>(ctx, a, li, vt.up(t)) {
                None
            } else {
                a[t]
            },
    }
}

/// Levels walked lie below the start.
proof fn lemma_walked_below<F: MargFold, C: FoldShape<F>>(
    ctx: C,
    computed: Seq<Option<F::Col>>,
    u: int,
    t: int,
)
    requires
        walked::<F, C>(ctx, computed, u, t),
    ensures
        below(ctx.tree(), u, t),
    decreases ctx.tree().rank_at(u),
{
    let vt = ctx.tree();
    if u != t {
        if walked::<F, C>(ctx, computed, vt.left_at(u), t) {
            lemma_walked_below::<F, C>(ctx, computed, vt.left_at(u), t);
        } else {
            lemma_walked_below::<F, C>(ctx, computed, vt.right_at(u), t);
        }
    }
}

/// Which levels are walked depends on the columns below the start alone.
proof fn lemma_walked_agrees<F: MargFold, C: FoldShape<F>>(
    ctx: C,
    a: Seq<Option<F::Col>>,
    b: Seq<Option<F::Col>>,
    u: int,
    t: int,
)
    requires
        ctx.tree().wf(),
        0 <= u < ctx.tree().n(),
        forall|w: int| 0 <= w < ctx.tree().n() && below(ctx.tree(), u, w) ==> #[trigger] a[w] == b[w],
    ensures
        walked::<F, C>(ctx, a, u, t) == walked::<F, C>(ctx, b, u, t),
    decreases ctx.tree().rank_at(u),
{
    let vt = ctx.tree();
    assert(vt.node_wf(u));
    assert(below(vt, u, u));
    assert(a[u] == b[u]);
    if !vt.leaf_at(u) {
        let l = vt.left_at(u);
        let r = vt.right_at(u);
        assert(vt.node_wf(l));
        assert(vt.node_wf(r));
        assert forall|w: int| 0 <= w < vt.n() && below(vt, l, w) implies #[trigger] a[w] == b[w] by {
            assert(below(vt, u, w));
        }
        assert forall|w: int| 0 <= w < vt.n() && below(vt, r, w) implies #[trigger] a[w] == b[w] by {
            assert(below(vt, u, w));
        }
        lemma_walked_agrees::<F, C>(ctx, a, b, l, t);
        lemma_walked_agrees::<F, C>(ctx, a, b, r, t);
    }
}

/// The children of a level lie below it, and nothing lies below both.
proof fn lemma_children_apart(vt: Vtree, u: int)
    requires
        vt.wf(),
        0 <= u < vt.n(),
        !vt.leaf_at(u),
    ensures
        below(vt, u, vt.left_at(u)),
        below(vt, u, vt.right_at(u)),
        !below(vt, vt.left_at(u), u),
        !below(vt, vt.right_at(u), u),
        !below(vt, vt.left_at(u), vt.right_at(u)),
        !below(vt, vt.right_at(u), vt.left_at(u)),
        forall|t: int|
            0 <= t < vt.n() && #[trigger] below(vt, vt.left_at(u), t) ==> below(vt, u, t) && !below(
                vt,
                vt.right_at(u),
                t,
            ),
        forall|t: int|
            0 <= t < vt.n() && #[trigger] below(vt, vt.right_at(u), t) ==> below(vt, u, t)
                && !below(vt, vt.left_at(u), t),
{
    let l = vt.left_at(u);
    let r = vt.right_at(u);
    assert(vt.node_wf(u));
    assert(vt.node_wf(l));
    assert(vt.node_wf(r));
    if below(vt, l, u) {
        lemma_below_rank(vt, l, u);
    }
    if below(vt, r, u) {
        lemma_below_rank(vt, r, u);
    }
    assert forall|t: int| 0 <= t < vt.n() implies !(#[trigger] below(vt, l, t) && below(vt, r, t)) by {
        lemma_below_one(vt, u, t);
    }
    assert(below(vt, l, l));
    assert(below(vt, r, r));
}

/// Give level `li` its column, and the levels below it theirs first. Levels
/// that are leaves, done, or have a column are passed over.
pub fn ensure_fold_walk<F: MargFold, R: ReservePolicy, C: FoldContext<F>>(
    policy: &mut R,
    li: usize,
    vtree: &Vtree,
    levels: &Vec<TddLevel>,
    computed: &mut Vec<Option<F::Col>>,
    zero: &F::Scalar,
    ctx: &C,
    retain: ColumnRetention,
) -> (r: Result<(), R::Err>)
    requires
        vtree.wf(),
        levels@.len() == vtree.n(),
        old(computed)@.len() == vtree.n(),
        li < vtree.n(),
        ctx.wf(),
        ctx.tree() == *vtree,
        ctx.level_seq() == levels@,
        F::scalar_ok(*zero),
        F::is_zero(*zero),
        F::scalar_abs(*zero) == ctx.empty_value(),
        all_right::<F, C>(*ctx, old(computed)@),
    ensures
        R::carried(*old(policy), *final(policy)),
        R::infallible() ==> r is Ok,
        all_right::<F, C>(*ctx, final(computed)@),
        untouched(*vtree, li as int, old(computed)@, final(computed)@),
        r is Ok ==> ready::<F, C>(*ctx, final(computed)@, li as int),
        r is Ok ==> retained::<F, C>(
            retain,
            *ctx,
            li as int,
            old(computed)@,
            final(computed)@,
        ),
        old(computed)@[li as int] is Some || ctx.done(li as int) || vtree.leaf_at(li as int)
            ==> r is Ok && final(computed)@ == old(computed)@,
    decreases vtree.rank_at(li as int),
{
    proof {
        R::carried_refl(*policy);
        assert(vtree.node_wf(li as int));
    }
    let t = VtreeIdx(li as u32);
    if computed[li].is_some() || ctx.already_done(li) || vtree.is_leaf(t) {
        return Ok(());
    }
    let ghost c0 = computed@;
    let ghost p0 = *policy;
    let (left, right) = vtree.children(t);
    let l_i: usize = left.idx();
    let r_i: usize = right.idx();
    proof {
        assert(vtree.node_wf(l_i as int));
        assert(vtree.node_wf(r_i as int));
        lemma_children_apart(*vtree, li as int);
    }
    match ensure_fold_walk::<F, R, C>(policy, l_i, vtree, levels, computed, zero, ctx, retain) {
        Ok(()) => {},
        Err(e) => {
            return Err(e);
        },
    }
    let ghost c1 = computed@;
    let ghost p1 = *policy;
    assert(c1[li as int] == c0[li as int]);
    match ensure_fold_walk::<F, R, C>(policy, r_i, vtree, levels, computed, zero, ctx, retain) {
        Ok(()) => {},
        Err(e) => {
            proof {
                R::carried_trans(p0, p1, *policy);
            }
            return Err(e);
        },
    }
    let ghost c2 = computed@;
    let ghost p2 = *policy;
    proof {
        R::carried_trans(p0, p1, p2);
        assert(c2[l_i as int] == c1[l_i as int]);
        assert(c2[li as int] == c1[li as int]);
    }
    let level = &levels[li];
    let width: usize = level.width();
    let allocated = F::alloc_col(policy, width, zero);
    let ghost p3 = *policy;
    proof {
        R::carried_trans(p0, p2, p3);
    }
    let mut column: F::Col = match allocated {
        Ok(c) => c,
        Err(e) => {
            return Err(e);
        },
    };
    let n: usize = level.nodes.len();
    proof {
        assert forall|u: int|
            0 <= u < c0.len() && !below(*vtree, li as int, u) implies #[trigger] c2[u] == c0[u] by {
            assert(c1[u] == c0[u]);
        }
    }
    let mut i: usize = 0;
    while i < n && i < width
        invariant
            vtree.wf(),
            p0 == *old(policy),
            c0 == old(computed)@,
            c0[li as int] is None,
            all_right::<F, C>(*ctx, c2),
            untouched(*vtree, li as int, c0, c2),
            levels@.len() == vtree.n(),
            li < vtree.n(),
            !vtree.leaf_at(li as int),
            !ctx.done(li as int),
            l_i == vtree.left_at(li as int),
            r_i == vtree.right_at(li as int),
            ctx.wf(),
            ctx.tree() == *vtree,
            ctx.level_seq() == levels@,
            *level == levels@[li as int],
            n == level.nodes@.len(),
            width == level.spec_width(),
            computed@ == c2,
            computed@.len() == vtree.n(),
            ready::<F, C>(*ctx, computed@, l_i as int),
            ready::<F, C>(*ctx, computed@, r_i as int),
            F::col_ok(column),
            F::col_abs(column).len() == width,
            forall|k: int|
                0 <= k < width ==> #[trigger] F::col_abs(column)[k] == if k < i {
                    context_col::<F, C>(*ctx, li as int)[k]
                } else {
                    ctx.empty_value()
                },
            R::carried(p0, *policy),
        decreases n - i,
    {
        if level.nodes[i].is_internal() {
            let v = ctx.fold_node(li, i, l_i, r_i, computed);
            let ghost p4 = *policy;
            let stored = F::set_col(policy, &mut column, i, v);
            proof {
                R::carried_trans(p0, p4, *policy);
            }
            match stored {
                Ok(()) => {},
                Err(e) => {
                    return Err(e);
                },
            }
        }
        i += 1;
    }
    assert(F::col_abs(column) =~= context_col::<F, C>(*ctx, li as int));
    computed.set(li, Some(column));
    let ghost c3 = computed@;
    if retain == ColumnRetention::Frontier {
        computed.set(l_i, None);
        computed.set(r_i, None);
    }
    proof {
        assert(l_i != li && r_i != li);
        let vt = *vtree;
        assert(below(vt, li as int, l_i as int) && below(vt, li as int, r_i as int));
        assert forall|u: int| 0 <= u < c0.len() && !below(vt, li as int, u) implies #[trigger] computed@[u]
            == c0[u] by {
            assert(c2[u] == c0[u]);
        }
        assert forall|w: int| 0 <= w < vt.n() && below(vt, r_i as int, w) implies #[trigger] c0[w]
            == c1[w] by {
            assert(!below(vt, l_i as int, w));
        }
        assert forall|u: int|
            walked::<F, C>(*ctx, c0, r_i as int, u) == #[trigger] walked::<F, C>(
                *ctx,
                c1,
                r_i as int,
                u,
            ) by {
            lemma_walked_agrees::<F, C>(*ctx, c0, c1, r_i as int, u);
        }
        assert forall|u: int|
            #[trigger] walked::<F, C>(*ctx, c0, li as int, u) == (u == li || walked::<F, C>(
                *ctx,
                c0,
                l_i as int,
                u,
            ) || walked::<F, C>(*ctx, c1, r_i as int, u)) by {}
        if retain == ColumnRetention::All {
            assert forall|u: int| 0 <= u < c0.len() implies if walked::<F, C>(
                *ctx,
                c0,
                li as int,
                u,
            ) {
                (#[trigger] computed@[u]) is Some
            } else {
                computed@[u] == c0[u]
            } by {
                if u != li {
                    assert(computed@[u] == c2[u]);
                    if !walked::<F, C>(*ctx, c1, r_i as int, u) {
                        assert(c2[u] == c1[u]);
                    }
                }
            }
        } else {
            assert forall|u: int| 0 <= u < c0.len() && u != li implies (#[trigger] computed@[u])
                == if vt.parent_at(u) is Some && walked::<F, C>(*ctx, c0, li as int, vt.up(u)) {
                None
            } else {
                c0[u]
            } by {
                assert(vt.node_wf(u));
                if u != l_i && u != r_i {
                    assert(computed@[u] == c2[u]);
                    assert(c1[u] == if vt.parent_at(u) is Some && walked::<F, C>(
                        *ctx,
                        c0,
                        l_i as int,
                        vt.up(u),
                    ) {
                        None
                    } else {
                        c0[u]
                    });
                }
            }
        }
    }
    Ok(())
}

} // verus!
