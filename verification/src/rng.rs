//! The run's random stream: a seedable deterministic generator from an
//! outside crate, behind trusted wrappers.

use vstd::prelude::*;
use rand::{Rng, RngCore, SeedableRng};
use rand::seq::SliceRandom;
use crate::ast::SolAST;

verus! {

/// Declares the outside generator type so values of it can live in the
/// run's state; its inside stays opaque.
#[verifier::external_type_specification]
#[verifier::external_body]
pub struct ExPcg64(rand_pcg::Lcg128Xsl64);

/// Relies on `rand::SeedableRng::seed_from_u64` for `rand_pcg::Pcg64`: builds
/// a generator whose state is derived from the seed alone.
#[verifier::external_body]
pub fn rng_from_seed(seed: u64) -> (r: rand_pcg::Pcg64) {
    rand_pcg::Pcg64::seed_from_u64(seed)
}

/// Relies on `rand::Rng::gen_range` over `0..n`: a uniformly random index
/// below `n`.  It panics on an empty range, which the precondition excludes.
#[verifier::external_body]
pub fn rng_below(r: &mut rand_pcg::Pcg64, n: usize) -> (i: usize)
    requires
        n > 0,
    ensures
        i < n,
{
    r.gen_range(0..n)
}

/// Relies on `rand_core::RngCore::next_u64`: some 64-bit value.
#[verifier::external_body]
pub fn rng_next_u64(r: &mut rand_pcg::Pcg64) -> (u: u64) {
    r.next_u64()
}

/// Relies on `rand::seq::SliceRandom::shuffle`: permutes the slice in place,
/// so the length and the multiset of elements are kept.
#[verifier::external_body]
pub fn rng_shuffle_nodes(v: &mut Vec<SolAST>, r: &mut rand_pcg::Pcg64)
    ensures
        final(v)@.len() == old(v)@.len(),
        final(v)@.to_multiset() == old(v)@.to_multiset(),
{
    v.as_mut_slice().shuffle(r)
}

} // verus!
