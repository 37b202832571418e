//! Pseudo-random draws for puzzle creation, taken from the process-wide
//! generator that the surrounding game also uses.

use vstd::prelude::*;

verus! {

/// Relies on macroquad::rand::srand: reseeds the process-wide pseudo-random
/// generator from the given value.
#[verifier::external_body]
pub(crate) fn seed_rng(seed: u64) {
    macroquad::rand::srand(seed);
}

/// Relies on macroquad::rand::rand: one pseudo-random draw from the
/// process-wide generator. Nothing is promised of the value; callers state
/// what holds of every outcome.
#[verifier::external_body]
pub(crate) fn next_random() -> (r: u32) {
    macroquad::rand::rand()
}

} // verus!
