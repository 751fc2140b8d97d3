//! Seeded pseudo-random key material for the Zobrist hashing scheme.

use vstd::prelude::*;

use rand::{rngs::StdRng, Rng, SeedableRng};

verus! {

pub uninterp spec fn piece_key_material(seed: u64) -> [[u64; 8]; 2];

pub uninterp spec fn marker_key_material(seed: u64) -> u64;

/// Relies on rand's `StdRng`: seeded with `SeedableRng::seed_from_u64` it
/// yields one fixed, machine-independent stream, so the two draws taken
/// here are functions of the seed alone.
#[verifier::external_body]
pub fn seeded_keys(seed: u64) -> (r: ([[u64; 8]; 2], u64))
    ensures
        r.0 == piece_key_material(seed),
        r.1 == marker_key_material(seed),
{
    let mut rand = StdRng::seed_from_u64(seed);
    (rand.gen(), rand.gen())
}

} // verus!
