//! Iteration counts of a scenario.
use vstd::prelude::*;

verus! {

/// How many iterations run without being recorded, and how many are recorded
/// after that.
#[derive(Copy, Clone, Debug, PartialEq, Eq, Structural)]
pub struct Iters {
    pub warmup: usize,
    pub measure: usize,
}

/// What an iteration is for.
#[derive(Copy, Clone, Debug, PartialEq, Eq, Structural)]
pub enum Phase {
    /// Not recorded.
    Warmup,
    /// The first recorded iteration: noise counters are read before it.
    FirstMeasured,
    /// Recorded.
    Measured,
}

impl Iters {
    /// The counts for cheap operations.
    #[verifier::allow_in_spec]
    pub fn standard() -> Iters
        returns
            (Iters { warmup: 100_000, measure: 1_000_000 }),
    {
        Iters { warmup: 100_000, measure: 1_000_000 }
    }

    /// The counts for scenarios with work to do before each iteration.
    #[verifier::allow_in_spec]
    pub fn light() -> Iters
        returns
            (Iters { warmup: 50_000, measure: 500_000 }),
    {
        Iters { warmup: 50_000, measure: 500_000 }
    }

    pub fn new(warmup: usize, measure: usize) -> (iters: Iters)
        ensures
            iters.warmup == warmup,
            iters.measure == measure,
    {
        Iters { warmup, measure }
    }

    /// How many iterations there are altogether.
    pub fn total(self) -> (n: usize)
        requires
            self.warmup + self.measure <= usize::MAX,
        ensures
            n == self.warmup + self.measure,
    {
        self.warmup + self.measure
    }

    /// What iteration `i` is for.
    pub fn phase(self, i: usize) -> (phase: Phase)
        ensures
            phase == if i < self.warmup {
                Phase::Warmup
            } else if i == self.warmup {
                Phase::FirstMeasured
            } else {
                Phase::Measured
            },
    {
        if i < self.warmup {
            Phase::Warmup
        } else if i == self.warmup {
            Phase::FirstMeasured
        } else {
            Phase::Measured
        }
    }
}

} // verus!
