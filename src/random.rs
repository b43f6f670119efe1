//! The game's source of randomness: a seeded ChaCha generator, drawn from
//! through two calls of the `rand` crate.
use rand::seq::IndexedRandom;
use rand::Rng;
use rand_chacha::ChaCha12Rng;
use vstd::prelude::*;

verus! {

#[verifier::external_type_specification]
#[verifier::external_body]
pub struct ExChaCha12Rng(ChaCha12Rng);

/// Relies on rand's `Rng::random_range` over the inclusive range
/// `lo..=hi`, which is not empty: the value drawn lies in that range.
#[verifier::external_body]
pub(crate) fn random_in(rng: &mut ChaCha12Rng, lo: u8, hi: u8) -> (r: u8)
    requires
        lo <= hi,
    ensures
        lo <= r <= hi,
{
    rng.random_range(lo..=hi)
}

/// Relies on rand's `IndexedRandom::choose` on a slice: `None` exactly when
/// the slice is empty, otherwise one of its elements.
#[verifier::external_body]
pub(crate) fn choose_id(ids: &Vec<u128>, rng: &mut ChaCha12Rng) -> (r: Option<u128>)
    ensures
        r is None <==> ids@.len() == 0,
        r matches Some(x) ==> ids@.contains(x),
{
    ids.as_slice().choose(rng).cloned()
}

} // verus!
