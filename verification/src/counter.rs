//! The interface shared by the prime counters.

use vstd::prelude::*;

verus! {

/// Something that counts the primes up to `x`. The searches built on it
/// rely only on the answers staying the same from call to call.
pub trait PrimeCounter {
    /// The counter's tables and caches are consistent.
    spec fn wf(&self) -> bool;

    /// The count the counter gives for `x`.
    spec fn answer(&self, x: u64) -> u64;

    /// The count for `x`; it leaves every answer as it was.
    fn pi(&mut self, x: u64) -> (count: u64)
        requires
            old(self).wf(),
        ensures
            final(self).wf(),
            count == old(self).answer(x),
            forall|y: u64| #[trigger] final(self).answer(y) == old(self).answer(y),
    ;
}

} // verus!
