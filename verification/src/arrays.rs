//! Arrays of variable length, as far as they are used here.
use arrayvec::ArrayVec;
use vstd::prelude::*;

verus! {

/// An array of variable length with a fixed capacity.
#[verifier::external_type_specification]
#[verifier::external_body]
#[verifier::reject_recursive_types(T)]
pub struct ExArrayVec<T, const CAP: usize>(ArrayVec<T, CAP>);

/// The block numbers that an array holds.
pub uninterp spec fn blocks_of(v: ArrayVec<u64, 30>) -> Seq<u64>;

/// Makes an empty array, as [`ArrayVec::new`] does.
#[verifier::external_body]
pub(crate) fn new_blocks() -> (r: ArrayVec<u64, 30>)
    ensures
        blocks_of(r) == Seq::<u64>::empty(),
{
    ArrayVec::new()
}

/// Counts what an array holds, as [`ArrayVec::len`] does; that is never more
/// than its capacity.
#[verifier::external_body]
pub(crate) fn count_blocks(v: &ArrayVec<u64, 30>) -> (r: usize)
    ensures
        r == blocks_of(*v).len(),
        r <= 30,
{
    v.len()
}

/// How much an array can hold, as [`ArrayVec::capacity`] says.
#[verifier::external_body]
pub(crate) fn capacity_for_blocks(v: &ArrayVec<u64, 30>) -> (r: usize)
    ensures
        r == 30,
{
    v.capacity()
}

/// Adds a number at the end, as [`ArrayVec::push`] does. There must be room for
/// it.
#[verifier::external_body]
pub(crate) fn push_block(v: &mut ArrayVec<u64, 30>, block: u64)
    requires
        blocks_of(*old(v)).len() < 30,
    ensures
        blocks_of(*final(v)) == blocks_of(*old(v)).push(block),
{
    v.push(block);
}

/// The numbers as a slice, as an [`ArrayVec`] dereferences to.
#[verifier::external_body]
pub(crate) fn block_slice(v: &ArrayVec<u64, 30>) -> (r: &[u64])
    ensures
        r@ == blocks_of(*v),
{
    v.as_slice()
}

/// Takes all numbers out, in order, as [`ArrayVec::drain`] does with the full
/// range.
#[verifier::external_body]
pub(crate) fn drain_blocks(v: &mut ArrayVec<u64, 30>) -> (r: Vec<u64>)
    ensures
        r@ == blocks_of(*old(v)),
        blocks_of(*final(v)) == Seq::<u64>::empty(),
{
    v.drain(..).collect()
}

/// The bytes that an array holds.
pub uninterp spec fn name_of(v: ArrayVec<u8, 16>) -> Seq<u8>;

/// Makes an empty array, as [`ArrayVec::new`] does.
#[verifier::external_body]
pub(crate) fn new_name() -> (r: ArrayVec<u8, 16>)
    ensures
        name_of(r) == Seq::<u8>::empty(),
{
    ArrayVec::new()
}

/// Takes all bytes out, as [`ArrayVec::clear`] does.
#[verifier::external_body]
pub(crate) fn clear_name(v: &mut ArrayVec<u8, 16>)
    ensures
        name_of(*final(v)) == Seq::<u8>::empty(),
{
    v.clear();
}

/// Adds bytes at the end, as [`ArrayVec::try_extend_from_slice`] does: all of
/// them if there is room, else none. Says whether there was.
#[verifier::external_body]
pub(crate) fn extend_name(v: &mut ArrayVec<u8, 16>, bytes: &[u8]) -> (r: bool)
    ensures
        r == (name_of(*old(v)).len() + bytes@.len() <= 16),
        r ==> name_of(*final(v)) == name_of(*old(v)) + bytes@,
        !r ==> name_of(*final(v)) == name_of(*old(v)),
{
    v.try_extend_from_slice(bytes).is_ok()
}

/// The bytes as a slice, as an [`ArrayVec`] dereferences to.
#[verifier::external_body]
pub(crate) fn name_slice(v: &ArrayVec<u8, 16>) -> (r: &[u8])
    ensures
        r@ == name_of(*v),
{
    v.as_slice()
}

} // verus!
