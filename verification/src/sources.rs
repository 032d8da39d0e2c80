//! The machine's clock and the source of random transaction ids.

use vstd::prelude::*;
use std::collections::hash_map::RandomState;

verus! {

/// The value of the high-resolution performance counter of the `time` crate, in nanoseconds
/// since an unspecified epoch (`time::precise_time_ns`). Nothing is stated of it: it is read
/// from the machine's clock.
#[verifier::external_body]
pub(crate) fn precise_time_ns() -> u64 {
    time::precise_time_ns()
}

/// A fresh `RandomState` of std (`RandomState::new`), seeded with random keys. Nothing is
/// stated of it.
#[verifier::external_body]
fn new_random_state() -> RandomState {
    RandomState::new()
}

/// The hash of `x` under `state` (std's `BuildHasher::hash_one`). Nothing is stated of it:
/// it depends on the random keys of the state.
#[verifier::external_body]
fn hash_one(state: &RandomState, x: u64) -> u64 {
    std::hash::BuildHasher::hash_one(state, x)
}

/// A random transaction id: the low 16 bits of a hash under freshly seeded keys.
pub(crate) fn random_id() -> u16 {
    let state = new_random_state();
    (hash_one(&state, 0) % 65536) as u16
}

} // verus!
