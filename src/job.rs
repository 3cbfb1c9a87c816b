//! Work for a pool of workers.

use vstd::prelude::*;

verus! {

/// A job that workers run on each input they are handed.
pub trait Job<I, O> {
    /// Called once for each input sent to the pool.
    fn step(&self, input: I) -> O;
}

} // verus!
