//! Words that each stand on a cache line of their own.

use crossbeam_utils::CachePadded;
use vstd::prelude::*;

verus! {

/// `crossbeam_utils::CachePadded`: a value padded and aligned to a cache line.
#[verifier::external_type_specification]
#[verifier::external_body]
#[verifier::reject_recursive_types(T)]
pub struct ExCachePadded<T>(CachePadded<T>);

/// The word that a padded cell holds.
pub uninterp spec fn padded_value(cell: CachePadded<u32>) -> u32;

/// `CachePadded::new`: the new cell holds the word that it is given.
#[verifier::external_body]
pub(crate) fn padded(value: u32) -> (cell: CachePadded<u32>)
    ensures
        padded_value(cell) == value,
{
    CachePadded::new(value)
}

/// `CachePadded::deref`: reading a cell gives the word that it holds.
#[verifier::external_body]
pub(crate) fn read_padded(cell: &CachePadded<u32>) -> (value: u32)
    ensures
        value == padded_value(*cell),
{
    **cell
}

/// `core::mem::size_of` of `CachePadded<u32>`: the cell is aligned to a cache
/// line of 16, 32, 64, 128 or 256 bytes, as the target has it, and fills one.
#[verifier::external_body]
pub(crate) fn padded_size() -> (size: usize)
    ensures
        size == vstd::layout::size_of::<CachePadded<u32>>(),
        size == 16 || size == 32 || size == 64 || size == 128 || size == 256,
{
    core::mem::size_of::<CachePadded<u32>>()
}

} // verus!
