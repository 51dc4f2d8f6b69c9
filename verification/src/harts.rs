//! The decisions of the multi-hart greeting: which harts take part, and what a hart does
//! when it reaches the sense-reversing barrier. The atomic counter and flag themselves are
//! left to the caller.

use vstd::prelude::*;

verus! {

/// What a hart does after arriving at the barrier.
#[derive(Debug, Clone, Copy, PartialEq, Eq, Structural)]
pub enum BarrierStep {
    /// The hart arrived last: it resets the arrival counter and sets the shared sense to
    /// `sense`, which releases the others.
    Release { sense: bool },
    /// The hart waits until the shared sense equals `sense`.
    Wait { sense: bool },
}

/// Whether hart `hart` takes part in a run on `n_cores` cores; the others spin forever.
pub fn hart_takes_part(hart: usize, n_cores: usize) -> (b: bool)
    ensures
        b == (hart < n_cores),
{
    hart < n_cores
}

/// A hart with sense `my_sense` arrives at the barrier after `arrived_before` other harts
/// of `n_cores`: its sense flips, and the last to arrive releases the others.
pub fn barrier_arrive(my_sense: bool, arrived_before: usize, n_cores: usize) -> (res: (bool, BarrierStep))
    requires
        arrived_before < n_cores,
    ensures
        res.0 == !my_sense,
        arrived_before + 1 == n_cores ==> res.1 == (BarrierStep::Release { sense: !my_sense }),
        arrived_before + 1 < n_cores ==> res.1 == (BarrierStep::Wait { sense: !my_sense }),
{
    let sense = !my_sense;
    if arrived_before == n_cores - 1 {
        (sense, BarrierStep::Release { sense })
    } else {
        (sense, BarrierStep::Wait { sense })
    }
}

} // verus!
