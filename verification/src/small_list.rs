//! Short lists of references, held in place up to four of them.

use smallvec::SmallVec;
use vstd::prelude::*;

verus! {

/// A list of references in a `smallvec::SmallVec`, opaque.
#[verifier::external_body]
pub struct SmallList {
    list: SmallVec<[u32; 4]>,
}

/// The elements of the list, in order.
pub uninterp spec fn small_list(v: SmallList) -> Seq<u32>;

/// `SmallVec::new`: the list is empty.
#[verifier::external_body]
pub(crate) fn small_new() -> (r: SmallList)
    ensures
        small_list(r) == Seq::<u32>::empty(),
{
    SmallList { list: SmallVec::new() }
}

/// `SmallVec::clear`: the list is empty afterwards.
#[verifier::external_body]
pub(crate) fn small_clear(v: &mut SmallList)
    ensures
        small_list(*final(v)) == Seq::<u32>::empty(),
{
    v.list.clear()
}

/// `SmallVec::try_reserve` for one more element: the elements stay, and whether
/// the room was granted comes back.
#[verifier::external_body]
pub(crate) fn small_try_reserve_one(v: &mut SmallList) -> (granted: bool)
    ensures
        small_list(*final(v)) == small_list(*old(v)),
{
    v.list.try_reserve(1).is_ok()
}

/// `SmallVec::push`: one more element at the end.
#[verifier::external_body]
pub(crate) fn small_push(v: &mut SmallList, x: u32)
    ensures
        small_list(*final(v)) == small_list(*old(v)).push(x),
{
    v.list.push(x)
}

/// `SmallVec::as_slice`: the elements, in order.
#[verifier::external_body]
pub(crate) fn small_slice(v: &SmallList) -> (r: &[u32])
    ensures
        r@ == small_list(*v),
{
    v.list.as_slice()
}

} // verus!
