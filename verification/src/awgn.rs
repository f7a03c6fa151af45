//! The noise stage, as far as it decides anything: how many samples one
//! work cycle forwards, and when the stage is done. The noise itself is
//! drawn and added by the caller, one perturbation for each sample that
//! the plan forwards.

use vstd::prelude::*;

verus! {

/// What one work cycle of the noise stage does.
#[derive(Debug, Clone, Copy, PartialEq, Eq, Structural)]
pub struct NoisePlan {
    /// Samples to read, perturb and write: as many are consumed as are
    /// produced.
    pub count: usize,
    /// The stage is done after this cycle.
    pub finished: bool,
}

/// The smaller of two counts.
pub open spec fn smaller(a: usize, b: usize) -> usize {
    if a <= b {
        a
    } else {
        b
    }
}

/// Plans one work cycle: `available` samples wait at the input, the output
/// has room for `capacity`, and `input_finished` tells whether the source
/// is exhausted.
///
/// The cycle forwards as many samples as both sides allow. The stage is
/// done once the source is exhausted and the cycle forwards everything
/// that waits.
pub fn work_plan(available: usize, capacity: usize, input_finished: bool) -> (plan: NoisePlan)
    ensures
        plan.count == smaller(available, capacity),
        plan.finished == (input_finished && capacity >= available),
{
    let count = if available <= capacity {
        available
    } else {
        capacity
    };
    NoisePlan { count, finished: input_finished && count == available }
}

} // verus!
