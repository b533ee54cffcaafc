//! Memory accounting helpers: reserved element counts and byte footprints.
use vstd::prelude::*;

verus! {

/// Number of elements `v` has room for without reallocating.
///
/// Calls `Vec::capacity`. The standard library documents that the capacity is never below
/// the length and that a vector never holds more than `isize::MAX` bytes, so the capacity
/// times the element size stays within `isize::MAX`. How much more than the length the
/// allocator reserved is left unsaid.
#[verifier::external_body]
pub(crate) fn vec_capacity<T>(v: &Vec<T>) -> (r: usize)
    ensures
        r >= v@.len(),
        r * vstd::layout::size_of::<T>() <= isize::MAX,
{
    v.capacity()
}

/// Reserves room for exactly `additional` more elements; false when the allocator refuses.
///
/// Calls `Vec::try_reserve_exact`, which leaves the contents unchanged whether or not it
/// succeeds. Whether it succeeds depends on the allocator and is left unsaid.
#[verifier::external_body]
pub(crate) fn try_reserve_exact<T>(v: &mut Vec<T>, additional: usize) -> (r: bool)
    ensures
        final(v)@ == old(v)@,
{
    v.try_reserve_exact(additional).is_ok()
}

/// Size in bytes of one element of type `T`.
pub open spec fn element_size<T>() -> usize {
    vstd::layout::size_of::<T>() as usize
}

/// Bytes taken by `count` elements of type `T`.
pub open spec fn bytes_for<T>(count: int) -> int {
    count * element_size::<T>()
}

/// Bytes reserved by `v`: its capacity, at least its length, times the element size.
pub fn reserved_bytes<T>(v: &Vec<T>) -> (r: usize)
    ensures
        exists|capacity: int| capacity >= v@.len() && r == bytes_for::<T>(capacity),
        r >= bytes_for::<T>(v@.len() as int),
        r <= isize::MAX,
{
    let capacity = vec_capacity(v);
    let size = core::mem::size_of::<T>();
    proof {
        assert(size == element_size::<T>());
        assert(capacity * size >= v@.len() * size) by (nonlinear_arith)
            requires
                capacity >= v@.len(),
        ;
        assert(capacity as int >= v@.len() && capacity * size == bytes_for::<T>(capacity as int));
    }
    capacity * size
}

} // verus!
