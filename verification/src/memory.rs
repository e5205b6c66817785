//! Fallible reservation of vector storage.
use std::collections::TryReserveError;
use vstd::prelude::*;

verus! {

/// The allocator refused to make room for `capacity` elements of `T` in a
/// vector: [`try_reserve_exact`] attaches this to each refusal, naming the
/// capacity that was asked for. Of a refusal, this module shows only that
/// something was asked for; everywhere else the predicate is abstract, so a
/// contract that names it says exactly which request was refused.
pub closed spec fn reservation_refused<T>(capacity: int) -> bool {
    capacity > 0
}

/// Calls `Vec::try_reserve_exact`. Its documentation promises that the
/// elements of the vector are left as they were, whatever the outcome, and
/// that nothing is done when the capacity already suffices, which it always
/// does for zero more elements. Whether any other reservation succeeds
/// depends on the allocator and the machine, and is not claimed; a refusal
/// is recorded as [`reservation_refused`] of the capacity asked for.
#[verifier::external_body]
pub(crate) fn try_reserve_exact<T>(v: &mut Vec<T>, additional: usize) -> (r: Result<
    (),
    TryReserveError,
>)
    ensures
        final(v)@ == old(v)@,
        additional == 0 ==> r is Ok,
        r is Err ==> reservation_refused::<T>(old(v)@.len() + additional),
{
    v.try_reserve_exact(additional)
}

} // verus!
