//! The source of randomness for the generators and the post-processor.
//!
//! Every contract in this crate holds for every value such a source can
//! return, so nothing is proved about the distribution; callers that
//! need a reproducible run pick the seeded variant.

use vstd::prelude::*;

verus! {

/// Relies on rand::random_range: a sample from the thread-local
/// generator, uniform within the given non-empty range.
#[verifier::external_body]
fn random_below(n: usize) -> (r: usize)
    requires
        1 <= n,
    ensures
        r < n,
{
    rand::random_range(0..n)
}

/// A source of index choices.  `Ambient` draws from the process-local
/// generator of the rand crate; `Seeded` steps a linear congruential
/// generator from the given state, so that a run can be reproduced.
pub enum RandomSource {
    Ambient,
    Seeded { state: u64 },
}

impl RandomSource {
    /// A seeded source that will produce the same choices on every run
    /// started from the same seed.
    pub fn from_seed(seed: u64) -> (r: RandomSource)
        ensures
            r is Seeded,
    {
        RandomSource::Seeded { state: seed }
    }

    /// Picks an index below `n`.
    pub fn pick(&mut self, n: usize) -> (r: usize)
        requires
            1 <= n,
        ensures
            r < n,
    {
        match self {
            RandomSource::Ambient => random_below(n),
            RandomSource::Seeded { state } => {
                let next = state.wrapping_mul(6364136223846793005).wrapping_add(
                    1442695040888963407,
                );
                *state = next;
                ((next >> 33) as usize) % n
            },
        }
    }
}

} // verus!
