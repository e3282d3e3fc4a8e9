use vstd::prelude::*;

use rand::SeedableRng;
use rand::seq::SliceRandom;

verus! {

#[verifier::external_type_specification]
#[verifier::external_body]
pub struct ExSmallRng(rand::rngs::SmallRng);

/// Relies on rand's SmallRng::from_entropy to seed a generator from the
/// system entropy source; nothing is assumed about the values it yields.
#[verifier::external_body]
pub fn new_rng() -> rand::rngs::SmallRng {
    rand::rngs::SmallRng::from_entropy()
}

/// Relies on rand's SliceRandom::shuffle, which permutes the slice in place:
/// the multiset of entries, and hence membership and length, are unchanged.
#[verifier::external_body]
pub fn shuffle_points(v: &mut Vec<usize>, rng: &mut rand::rngs::SmallRng)
    ensures
        final(v)@.to_multiset() == old(v)@.to_multiset(),
        final(v)@.len() == old(v)@.len(),
        forall|p: usize| final(v)@.contains(p) <==> old(v)@.contains(p),
{
    v.shuffle(rng);
}

} // verus!
