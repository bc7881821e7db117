//! A sparse table of big numbers keyed by slot.

use crate::bigint::{big_clone, big_val};
use crate::reserve::ReservePolicy;
use num_bigint::BigUint;
use vstd::prelude::*;

verus! {

/// The exact values of the slots that overflowed: one entry per such slot,
/// in ascending slot order, and nothing for the others.
pub struct BigSide {
    /// Slots with an entry, strictly ascending.
    pub keys: Vec<usize>,
    /// The entries, in the order of `keys`.
    pub vals: Vec<BigUint>,
}

impl BigSide {
    /// One entry per key, keys strictly ascending.
    pub open spec fn wf(self) -> bool {
        &&& self.keys@.len() == self.vals@.len()
        &&& forall|a: int, b: int| 0 <= a < b < self.keys@.len() ==> self.keys@[a] < self.keys@[b]
    }

    /// Whether slot `k` has an entry.
    pub open spec fn has(self, k: int) -> bool {
        exists|j: int| 0 <= j < self.keys@.len() && #[trigger] self.keys@[j] == k
    }

    /// The value of the entry for slot `k`.
    pub open spec fn at(self, k: int) -> nat {
        big_val(
            self.vals@[choose|j: int| 0 <= j < self.keys@.len() && #[trigger] self.keys@[j] == k],
        )
    }

    /// The entry at position `j` is the entry of its key.
    pub proof fn lemma_at(self, j: int)
        requires
            self.wf(),
            0 <= j < self.keys@.len(),
        ensures
            self.has(self.keys@[j] as int),
            self.at(self.keys@[j] as int) == big_val(self.vals@[j]),
    {
        let k = self.keys@[j] as int;
        assert(self.keys@[j] == k);
        let c = choose|i: int| 0 <= i < self.keys@.len() && #[trigger] self.keys@[i] == k;
        assert(c == j);
    }

    /// The empty table.
    pub fn new() -> (r: BigSide)
        ensures
            r.wf(),
            r.keys@.len() == 0,
            forall|k: int| !r.has(k),
    {
        BigSide { keys: Vec::new(), vals: Vec::new() }
    }

    /// Number of entries.
    pub fn len(&self) -> (r: usize)
        ensures
            r == self.keys@.len(),
    {
        self.keys.len()
    }

    /// The first position whose key is at least `i`.
    fn lower_bound(&self, i: usize) -> (r: usize)
        requires
            self.wf(),
        ensures
            r <= self.keys@.len(),
            forall|j: int| 0 <= j < r ==> self.keys@[j] < i,
            forall|j: int| r <= j < self.keys@.len() ==> self.keys@[j] >= i,
    {
        let mut lo: usize = 0;
        let mut hi: usize = self.keys.len();
        while lo < hi
            invariant
                self.wf(),
                0 <= lo <= hi <= self.keys@.len(),
                forall|j: int| 0 <= j < lo ==> self.keys@[j] < i,
                forall|j: int| hi <= j < self.keys@.len() ==> self.keys@[j] >= i,
            decreases hi - lo,
        {
            let mid: usize = lo + (hi - lo) / 2;
            if self.keys[mid] < i {
                lo = mid + 1;
            } else {
                hi = mid;
            }
        }
        lo
    }

    /// The entry for slot `i`.
    pub fn get(&self, i: usize) -> (r: Option<&BigUint>)
        requires
            self.wf(),
        ensures
            r is Some <==> self.has(i as int),
            r matches Some(b) ==> big_val(*b) == self.at(i as int),
    {
        let p: usize = self.lower_bound(i);
        if p < self.keys.len() && self.keys[p] == i {
            proof {
                self.lemma_at(p as int);
            }
            Some(&self.vals[p])
        } else {
            None
        }
    }

    /// Record `b` as the entry for slot `i`. On an error the table is as it
    /// was.
    pub fn try_insert<R: ReservePolicy>(&mut self, policy: &mut R, i: usize, b: BigUint) -> (r:
        Result<(), R::Err>)
        requires
            old(self).wf(),
        ensures
            final(self).wf(),
            R::carried(*old(policy), *final(policy)),
            R::infallible() ==> r is Ok,
            r is Err ==> {
                &&& R::denies(*final(policy))
                &&& final(self).keys@ == old(self).keys@
                &&& final(self).vals@ == old(self).vals@
            },
            r is Ok ==> {
                &&& forall|k: int| final(self).has(k) <==> old(self).has(k) || k == i
                &&& final(self).at(i as int) == big_val(b)
                &&& forall|k: int|
                    k != i && old(self).has(k) ==> #[trigger] final(self).at(k) == old(self).at(k)
            },
    {
        let p: usize = self.lower_bound(i);
        if p < self.keys.len() && self.keys[p] == i {
            let ghost before = *self;
            self.vals.set(p, b);
            proof {
                R::carried_refl(*policy);
                self.lemma_at(p as int);
                assert forall|k: int| self.has(k) <==> before.has(k) by {
                    assert(self.keys@ == before.keys@);
                }
                assert forall|k: int| k != i && before.has(k) implies #[trigger] self.at(k)
                    == before.at(k) by {
                    let j = choose|j: int| 0 <= j < before.keys@.len() && before.keys@[j] == k;
                    before.lemma_at(j);
                    self.lemma_at(j);
                }
            }
            return Ok(());
        }
        let ghost before = *self;
        let ghost p0 = *policy;
        match policy.reserve(&mut self.keys, 1) {
            Ok(()) => {},
            Err(e) => {
                return Err(e);
            },
        }
        let ghost p1 = *policy;
        match policy.reserve(&mut self.vals, 1) {
            Ok(()) => {},
            Err(e) => {
                proof {
                    R::carried_trans(p0, p1, *policy);
                }
                return Err(e);
            },
        }
        proof {
            R::carried_trans(p0, p1, *policy);
        }
        self.keys.insert(p, i);
        self.vals.insert(p, b);
        proof {
            assert(self.keys@ == before.keys@.insert(p as int, i));
            assert(self.vals@ == before.vals@.insert(p as int, b));
            assert forall|k: int| self.has(k) <==> before.has(k) || k == i by {
                if before.has(k) {
                    let j = choose|j: int| 0 <= j < before.keys@.len() && before.keys@[j] == k;
                    if j < p {
                        assert(self.keys@[j] == k);
                    } else {
                        assert(self.keys@[j + 1] == k);
                    }
                }
                if k == i {
                    assert(self.keys@[p as int] == k);
                }
                if self.has(k) {
                    let j = choose|j: int| 0 <= j < self.keys@.len() && self.keys@[j] == k;
                    if j < p {
                        assert(before.keys@[j] == k);
                    } else if j > p {
                        assert(before.keys@[j - 1] == k);
                    }
                }
            }
            self.lemma_at(p as int);
            assert forall|k: int| k != i && before.has(k) implies #[trigger] self.at(k)
                == before.at(k) by {
                let j = choose|j: int| 0 <= j < before.keys@.len() && before.keys@[j] == k;
                before.lemma_at(j);
                if j < p {
                    self.lemma_at(j);
                } else {
                    self.lemma_at(j + 1);
                }
            }
        }
        Ok(())
    }

    /// Remove and hand out the entry for slot `i`.
    pub fn take(&mut self, i: usize) -> (r: Option<BigUint>)
        requires
            old(self).wf(),
        ensures
            final(self).wf(),
            r is Some <==> old(self).has(i as int),
            r matches Some(b) ==> big_val(b) == old(self).at(i as int),
            forall|k: int| final(self).has(k) <==> old(self).has(k) && k != i,
            forall|k: int|
                k != i && old(self).has(k) ==> #[trigger] final(self).at(k) == old(self).at(k),
    {
        let p: usize = self.lower_bound(i);
        let ghost before = *self;
        if p < self.keys.len() && self.keys[p] == i {
            let _ = self.keys.remove(p);
            let b = self.vals.remove(p);
            proof {
                before.lemma_at(p as int);
                assert(self.keys@ == before.keys@.remove(p as int));
                assert(self.vals@ == before.vals@.remove(p as int));
                assert forall|k: int| self.has(k) <==> before.has(k) && k != i by {
                    if before.has(k) && k != i {
                        let j = choose|j: int| 0 <= j < before.keys@.len() && before.keys@[j] == k;
                        if j < p {
                            assert(self.keys@[j] == k);
                        } else {
                            assert(self.keys@[j - 1] == k);
                        }
                    }
                    if self.has(k) {
                        let j = choose|j: int| 0 <= j < self.keys@.len() && self.keys@[j] == k;
                        if j < p {
                            assert(before.keys@[j] == k);
                        } else {
                            assert(before.keys@[j + 1] == k);
                        }
                    }
                }
                assert forall|k: int| k != i && before.has(k) implies #[trigger] self.at(k)
                    == before.at(k) by {
                    let j = choose|j: int| 0 <= j < before.keys@.len() && before.keys@[j] == k;
                    before.lemma_at(j);
                    if j < p {
                        self.lemma_at(j);
                    } else {
                        self.lemma_at(j - 1);
                    }
                }
            }
            Some(b)
        } else {
            None
        }
    }

    /// A table with the same entries.
    pub fn try_clone<R: ReservePolicy>(&self, policy: &mut R) -> (r: Result<BigSide, R::Err>)
        requires
            self.wf(),
        ensures
            R::carried(*old(policy), *final(policy)),
            R::infallible() ==> r is Ok,
            r matches Ok(c) ==> {
                &&& c.wf()
                &&& c.keys@ == self.keys@
                &&& forall|k: int| c.has(k) <==> self.has(k)
                &&& forall|k: int| self.has(k) ==> #[trigger] c.at(k) == self.at(k)
            },
    {
        let mut keys: Vec<usize> = Vec::new();
        let mut vals: Vec<BigUint> = Vec::new();
        let n: usize = self.keys.len();
        let ghost p0 = *policy;
        match policy.reserve_exact(&mut keys, n) {
            Ok(()) => {},
            Err(e) => {
                return Err(e);
            },
        }
        let ghost p1 = *policy;
        match policy.reserve_exact(&mut vals, n) {
            Ok(()) => {},
            Err(e) => {
                proof {
                    R::carried_trans(p0, p1, *policy);
                }
                return Err(e);
            },
        }
        proof {
            R::carried_trans(p0, p1, *policy);
        }
        let mut k: usize = 0;
        while k < n
            invariant
                self.wf(),
                n == self.keys@.len(),
                0 <= k <= n,
                keys@ == self.keys@.take(k as int),
                vals@.len() == k,
                forall|j: int| 0 <= j < k ==> big_val(#[trigger] vals@[j]) == big_val(self.vals@[j]),
            decreases n - k,
        {
            keys.push(self.keys[k]);
            vals.push(big_clone(&self.vals[k]));
            assert(keys@ =~= self.keys@.take(k + 1));
            k += 1;
        }
        let c = BigSide { keys, vals };
        proof {
            assert(c.keys@ =~= self.keys@);
            assert forall|q: int| self.has(q) implies #[trigger] c.at(q) == self.at(q) by {
                let j = choose|j: int| 0 <= j < self.keys@.len() && self.keys@[j] == q;
                self.lemma_at(j);
                c.lemma_at(j);
            }
        }
        Ok(c)
    }
}

} // verus!
