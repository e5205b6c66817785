//! Sizing, allocation and seeding of the FastRP embedding buffers.
use rand::{Rng, SeedableRng};
use rand_xoshiro::Xoshiro256PlusPlus;
use vstd::prelude::*;
use crate::error::{FastRPError, err_capacity_overflow, fails_oom, fails_with, msg_capacity_overflow};
use crate::memory::{try_reserve_exact, reservation_refused};

verus! {

/// The number of entries of a `num_nodes` by `dim` row-major buffer, or the
/// `"Capacity overflow"` error when that number does not fit in a `usize`.
pub fn embedding_capacity(num_nodes: usize, dim: usize) -> (r: Result<usize, FastRPError>)
    ensures
        num_nodes * dim <= usize::MAX ==> r == Ok::<usize, FastRPError>((num_nodes * dim) as usize),
        num_nodes * dim > usize::MAX ==> fails_with(r, msg_capacity_overflow()),
{
    match num_nodes.checked_mul(dim) {
        Some(c) => Ok(c),
        None => Err(err_capacity_overflow()),
    }
}

/// A `num_nodes` by `dim` row-major buffer with every entry a copy of
/// `zero`. The size is checked first (`"Capacity overflow"`), then the
/// storage is reserved exactly, and a refused reservation is reported as
/// [`FastRPError::Oom`]: that error comes only from the allocator refusing
/// exactly `num_nodes * dim` elements. An empty buffer needs no storage and
/// is always returned.
pub fn zeroed_buffer<T: Copy>(num_nodes: usize, dim: usize, zero: T) -> (r: Result<
    Vec<T>,
    FastRPError,
>)
    ensures
        num_nodes * dim > usize::MAX ==> fails_with(r, msg_capacity_overflow()),
        num_nodes * dim <= usize::MAX ==> (r is Ok || fails_oom(r)),
        num_nodes * dim == 0 ==> r is Ok,
        fails_oom(r) ==> num_nodes * dim <= usize::MAX && reservation_refused::<T>(num_nodes * dim),
        r matches Ok(v) ==> v@.len() == num_nodes * dim && forall|i: int|
            0 <= i < v@.len() ==> cloned::<T>(zero, #[trigger] v@[i]),
{
    let capacity = match embedding_capacity(num_nodes, dim) {
        Ok(c) => c,
        Err(e) => return Err(e),
    };
    let mut v: Vec<T> = Vec::new();
    match try_reserve_exact(&mut v, capacity) {
        Ok(()) => {},
        Err(e) => return Err(FastRPError::Oom(e)),
    }
    v.resize(capacity, zero);
    Ok(v)
}

/// The seed of row `row` of the initial random projection: the base seed
/// XOR'd with the row index.
pub fn row_seed(base_seed: u64, row: usize) -> (s: u64)
    ensures
        s == base_seed ^ (row as u64),
{
    let r = row as u64;
    base_seed ^ r
}

/// The `rand_xoshiro` generator that draws the initial projection.
#[verifier::external_type_specification]
#[verifier::external_body]
pub struct ExXoshiro256PlusPlus(Xoshiro256PlusPlus);

/// The generator that `Xoshiro256PlusPlus::seed_from_u64` builds from `seed`.
/// Its state is expanded from the seed by SplitMix64 and depends on the seed
/// alone; it is named here and not spelled out.
pub uninterp spec fn seeded_xoshiro(seed: u64) -> Xoshiro256PlusPlus;

/// Calls `Xoshiro256PlusPlus::seed_from_u64`. The contract claims only that
/// the generator is the one named [`seeded_xoshiro`] for this seed, i.e. that
/// equal seeds give equal generators; what state it holds is left unsaid.
#[verifier::external_body]
fn seeded_generator(seed: u64) -> (g: Xoshiro256PlusPlus)
    ensures
        g == seeded_xoshiro(seed),
{
    Xoshiro256PlusPlus::seed_from_u64(seed)
}

/// Calls `rand::thread_rng().gen::<u64>()`: a seed drawn from the
/// system-seeded thread-local generator. It depends on chance, so nothing is
/// claimed of it.
#[verifier::external_body]
fn fresh_seed() -> u64 {
    rand::thread_rng().gen::<u64>()
}

/// The base seed of a run: the one given, or else a fresh random one.
pub fn base_seed(seed: Option<u64>) -> (s: u64)
    ensures
        seed matches Some(given) ==> s == given,
{
    match seed {
        Some(given) => given,
        None => fresh_seed(),
    }
}

/// The generator of row `row` of the initial random projection: an
/// `Xoshiro256PlusPlus` seeded with [`row_seed`]`(base_seed, row)`. The
/// generator is the one named [`seeded_xoshiro`] for that seed.
pub fn row_generator(base_seed: u64, row: usize) -> (g: Xoshiro256PlusPlus)
    ensures
        g == seeded_xoshiro(base_seed ^ (row as u64)),
{
    seeded_generator(row_seed(base_seed, row))
}

/// Distinct rows get distinct seeds: the per-row seeds of one base seed
/// never collide, so no two rows of the initial projection share a random
/// stream.
pub proof fn row_seeds_distinct(base_seed: u64, i: usize, j: usize)
    requires
        i != j,
    ensures
        base_seed ^ (i as u64) != base_seed ^ (j as u64),
{
    let a = i as u64;
    let b = j as u64;
    assert(a != b);
    assert(a != b ==> base_seed ^ a != base_seed ^ b) by (bit_vector);
}

} // verus!
