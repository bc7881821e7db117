//! Hash sets and maps with the hasher of `rustc_hash`.

use crate::bigint::big_val;
use crate::rational::{rat, Rat};
use num_bigint::BigUint;
use num_rational::BigRational;
use rustc_hash::{FxBuildHasher, FxHashMap, FxHashSet};
use vstd::prelude::*;

verus! {

/// `rustc_hash::FxBuildHasher`, carried through opaquely.
#[verifier::external_type_specification]
#[verifier::external_body]
pub struct ExFxBuildHasher(FxBuildHasher);

/// The map has no keys.
pub open spec fn no_entries<K, V>(m: Map<K, V>) -> bool {
    forall|k: K| !m.contains_key(k)
}

/// `FxHashSet::default` is the empty set.
#[verifier::external_body]
pub(crate) fn pair_set_new() -> (r: FxHashSet<(u32, u32)>)
    ensures
        r@ == Set::<(u32, u32)>::empty(),
{
    FxHashSet::default()
}

/// `FxHashSet::insert` adds the key.
#[verifier::external_body]
pub(crate) fn pair_set_insert(s: &mut FxHashSet<(u32, u32)>, k: (u32, u32))
    ensures
        final(s)@ == old(s)@.insert(k),
{
    s.insert(k);
}

/// `FxHashSet::contains` tells membership.
#[verifier::external_body]
pub(crate) fn pair_set_contains(s: &FxHashSet<(u32, u32)>, k: (u32, u32)) -> (r: bool)
    ensures
        r == s@.contains(k),
{
    s.contains(&k)
}

/// `FxHashSet::clear` leaves the empty set.
#[verifier::external_body]
pub(crate) fn pair_set_clear(s: &mut FxHashSet<(u32, u32)>)
    ensures
        final(s)@ == Set::<(u32, u32)>::empty(),
{
    s.clear();
}

/// `FxHashMap::default` is the empty map.
#[verifier::external_body]
pub(crate) fn u128_map_new() -> (r: FxHashMap<u128, u32>)
    ensures
        no_entries(r@),
{
    FxHashMap::default()
}

/// `FxHashMap::get` finds the value of a key.
#[verifier::external_body]
pub(crate) fn u128_map_get(m: &FxHashMap<u128, u32>, k: u128) -> (r: Option<u32>)
    ensures
        r is Some <==> m@.contains_key(k),
        r matches Some(v) ==> v == m@[k],
{
    m.get(&k).copied()
}

/// `FxHashMap::insert` sets the value of a key.
#[verifier::external_body]
pub(crate) fn u128_map_insert(m: &mut FxHashMap<u128, u32>, k: u128, v: u32)
    ensures
        final(m)@ == old(m)@.insert(k, v),
{
    m.insert(k, v);
}

/// What a map keyed by big numbers holds, by the values of the keys.
pub uninterp spec fn big_map(m: FxHashMap<BigUint, u32>) -> Map<nat, u32>;

/// `FxHashMap::default` is the empty map.
#[verifier::external_body]
pub(crate) fn big_map_new() -> (r: FxHashMap<BigUint, u32>)
    ensures
        no_entries(big_map(r)),
{
    FxHashMap::default()
}

/// `FxHashMap::get` finds the value of a key; equal numbers are equal keys.
#[verifier::external_body]
pub(crate) fn big_map_get(m: &FxHashMap<BigUint, u32>, k: &BigUint) -> (r: Option<u32>)
    ensures
        r is Some <==> big_map(*m).contains_key(big_val(*k)),
        r matches Some(v) ==> v == big_map(*m)[big_val(*k)],
{
    m.get(k).copied()
}

/// `FxHashMap::insert` sets the value of a key.
#[verifier::external_body]
pub(crate) fn big_map_insert(m: &mut FxHashMap<BigUint, u32>, k: BigUint, v: u32)
    ensures
        big_map(*final(m)) == big_map(*old(m)).insert(big_val(k), v),
{
    m.insert(k, v);
}

/// What a map keyed by rationals holds, by the numbers that the keys are.
pub uninterp spec fn ratio_map(m: FxHashMap<BigRational, u32>) -> Map<Rat, u32>;

/// `FxHashMap::default` is the empty map.
#[verifier::external_body]
pub(crate) fn ratio_map_new() -> (r: FxHashMap<BigRational, u32>)
    ensures
        no_entries(ratio_map(r)),
{
    FxHashMap::default()
}

/// `FxHashMap::get` finds the value of a key; equal numbers are equal keys, and
/// in lowest terms equal numbers have equal parts.
#[verifier::external_body]
pub(crate) fn ratio_map_get(m: &FxHashMap<BigRational, u32>, k: &BigRational) -> (r: Option<u32>)
    requires
        rat(*k).lowest(),
    ensures
        r is Some <==> ratio_map(*m).contains_key(rat(*k)),
        r matches Some(v) ==> v == ratio_map(*m)[rat(*k)],
{
    m.get(k).copied()
}

/// `FxHashMap::insert` sets the value of a key.
#[verifier::external_body]
pub(crate) fn ratio_map_insert(m: &mut FxHashMap<BigRational, u32>, k: BigRational, v: u32)
    requires
        rat(k).lowest(),
    ensures
        ratio_map(*final(m)) == ratio_map(*old(m)).insert(rat(k), v),
{
    m.insert(k, v);
}

/// `FxHashMap::default` is the empty map.
#[verifier::external_body]
pub(crate) fn i128_map_new() -> (r: FxHashMap<i128, u32>)
    ensures
        no_entries(r@),
{
    FxHashMap::default()
}

/// `FxHashMap::get` finds the value of a key.
#[verifier::external_body]
pub(crate) fn i128_map_get(m: &FxHashMap<i128, u32>, k: i128) -> (r: Option<u32>)
    ensures
        r is Some <==> m@.contains_key(k),
        r matches Some(v) ==> v == m@[k],
{
    m.get(&k).copied()
}

/// `FxHashMap::insert` sets the value of a key.
#[verifier::external_body]
pub(crate) fn i128_map_insert(m: &mut FxHashMap<i128, u32>, k: i128, v: u32)
    ensures
        final(m)@ == old(m)@.insert(k, v),
{
    m.insert(k, v);
}

/// `FxHashMap::default` is the empty map.
#[verifier::external_body]
pub(crate) fn u32_map_new() -> (r: FxHashMap<u32, u32>)
    ensures
        no_entries(r@),
{
    FxHashMap::default()
}

/// `FxHashMap::get` finds the value of a key.
#[verifier::external_body]
pub(crate) fn u32_map_get(m: &FxHashMap<u32, u32>, k: u32) -> (r: Option<u32>)
    ensures
        r is Some <==> m@.contains_key(k),
        r matches Some(v) ==> v == m@[k],
{
    m.get(&k).copied()
}

/// `FxHashMap::insert` sets the value of a key.
#[verifier::external_body]
pub(crate) fn u32_map_insert(m: &mut FxHashMap<u32, u32>, k: u32, v: u32)
    ensures
        final(m)@ == old(m)@.insert(k, v),
{
    m.insert(k, v);
}

/// `FxHashMap::clear` leaves the empty map.
#[verifier::external_body]
pub(crate) fn u32_map_clear(m: &mut FxHashMap<u32, u32>)
    ensures
        no_entries(final(m)@),
{
    m.clear();
}

/// `FxHashMap::default` is the empty map.
#[verifier::external_body]
pub(crate) fn pair_map_new() -> (r: FxHashMap<(u32, u32), usize>)
    ensures
        no_entries(r@),
{
    FxHashMap::default()
}

/// `FxHashMap::get` finds the value of a key.
#[verifier::external_body]
pub(crate) fn pair_map_get(m: &FxHashMap<(u32, u32), usize>, k: (u32, u32)) -> (r: Option<usize>)
    ensures
        r is Some <==> m@.contains_key(k),
        r matches Some(v) ==> v == m@[k],
{
    m.get(&k).copied()
}

/// `FxHashMap::insert` sets the value of a key.
#[verifier::external_body]
pub(crate) fn pair_map_insert(m: &mut FxHashMap<(u32, u32), usize>, k: (u32, u32), v: usize)
    ensures
        final(m)@ == old(m)@.insert(k, v),
{
    m.insert(k, v);
}

/// `FxHashMap::clear` leaves the empty map.
#[verifier::external_body]
pub(crate) fn pair_map_clear(m: &mut FxHashMap<(u32, u32), usize>)
    ensures
        no_entries(final(m)@),
{
    m.clear();
}

/// What an `FxHashMap` keyed by lists of pairs holds, by the elements of the
/// keys.
pub uninterp spec fn list_map(m: FxHashMap<Vec<(u32, u32)>, u32>) -> Map<Seq<(u32, u32)>, u32>;

/// `FxHashMap::default` is the empty map.
#[verifier::external_body]
pub(crate) fn list_map_new() -> (r: FxHashMap<Vec<(u32, u32)>, u32>)
    ensures
        no_entries(list_map(r)),
{
    FxHashMap::default()
}

/// `FxHashMap::get` finds the value of an equal key.
#[verifier::external_body]
pub(crate) fn list_map_get(m: &FxHashMap<Vec<(u32, u32)>, u32>, k: &Vec<(u32, u32)>) -> (r: Option<
    u32,
>)
    ensures
        r is Some <==> list_map(*m).contains_key(k@),
        r matches Some(v) ==> v == list_map(*m)[k@],
{
    m.get(k).copied()
}

/// `FxHashMap::insert` sets the value of the key.
#[verifier::external_body]
pub(crate) fn list_map_insert(m: &mut FxHashMap<Vec<(u32, u32)>, u32>, k: Vec<(u32, u32)>, v: u32)
    ensures
        list_map(*final(m)) == list_map(*old(m)).insert(k@, v),
{
    m.insert(k, v);
}

/// `FxHashSet::default` is the empty set.
#[verifier::external_body]
pub(crate) fn u32_set_new() -> (r: FxHashSet<u32>)
    ensures
        r@ == Set::<u32>::empty(),
{
    FxHashSet::default()
}

/// `FxHashSet::insert` adds the key.
#[verifier::external_body]
pub(crate) fn u32_set_insert(s: &mut FxHashSet<u32>, k: u32)
    ensures
        final(s)@ == old(s)@.insert(k),
{
    s.insert(k);
}

/// `FxHashSet::contains` tells membership.
#[verifier::external_body]
pub(crate) fn u32_set_contains(s: &FxHashSet<u32>, k: u32) -> (r: bool)
    ensures
        r == s@.contains(k),
{
    s.contains(&k)
}

} // verus!
