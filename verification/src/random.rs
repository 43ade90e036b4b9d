//! The random source: the `pcg64` generator of `rand_pcg`, driven through
//! `rand`.
//!
//! A generator is an opaque value to the verifier. Nothing is claimed of the
//! numbers it yields; of a choice, only that it is one of the candidates.

use rand_pcg::Pcg64;
use vstd::prelude::*;

verus! {

#[verifier::external_type_specification]
#[verifier::external_body]
pub struct ExLcg128Xsl64(rand_pcg::Lcg128Xsl64);

/// `rand::SeedableRng::seed_from_u64` for `Pcg64`: a generator started from
/// `seed`. No claim is made of the generator.
#[verifier::external_body]
pub(crate) fn seed_from_u64(seed: u64) -> (rng: Pcg64) {
    rand::SeedableRng::seed_from_u64(seed)
}

/// `Clone::clone` of `Pcg64`: a second generator that goes on from where
/// `rng` stands, without moving `rng`. No claim is made of the copy.
#[verifier::external_body]
pub(crate) fn clone_rng(rng: &Pcg64) -> (copy: Pcg64) {
    rng.clone()
}

/// `rand::RngCore::next_u32` for `Pcg64`: the next 32 bits. No claim is made
/// of the number, nor of where the generator stands afterwards.
#[verifier::external_body]
pub(crate) fn next_u32(rng: &mut Pcg64) -> (bits: u32) {
    rand::RngCore::next_u32(rng)
}

/// `rand::seq::SliceRandom::choose` on a slice: `None` for an empty slice,
/// else a reference to one of its elements. Which one is not claimed.
#[verifier::external_body]
pub(crate) fn choose_one<'a, T>(items: &'a [T], rng: &mut Pcg64) -> (picked: Option<&'a T>)
    ensures
        picked is None <==> items@.len() == 0,
        picked matches Some(item) ==> items@.contains(*item),
{
    rand::seq::SliceRandom::choose(items, rng)
}

} // verus!
