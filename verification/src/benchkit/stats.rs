//! What one run of a scenario yields besides its latencies.
use crate::telemetry::Histogram;
use vstd::prelude::*;

verus! {

/// How the operations of a scenario were driven. Latencies under different
/// models measure different things and are never compared.
#[derive(Copy, Clone, Debug, PartialEq, Eq, Structural)]
pub enum ArrivalModel {
    /// Each operation starts when the one before it ends.
    BackToBack,
    /// Operations are scheduled every `interval_ns`, whatever the ones before
    /// them do.
    OpenLoop { interval_ns: u64 },
}

/// Counters of operating system noise.
#[derive(Copy, Clone, Debug, PartialEq, Eq)]
pub struct RunStats {
    /// The thread gave up the processor.
    pub ctx_voluntary: u64,
    /// The thread was preempted.
    pub ctx_involuntary: u64,
    /// Page faults served without the disk.
    pub minor_faults: u64,
    /// Page faults that went to the disk.
    pub major_faults: u64,
    /// Moves to another core, where they are counted.
    pub migrations: Option<u64>,
}

/// `a` less `b`, or 0 if `b` is greater.
pub open spec fn less(a: u64, b: u64) -> u64 {
    if a >= b {
        (a - b) as u64
    } else {
        0
    }
}

impl Default for RunStats {
    fn default() -> (stats: RunStats)
        ensures
            stats == (RunStats {
                ctx_voluntary: 0,
                ctx_involuntary: 0,
                minor_faults: 0,
                major_faults: 0,
                migrations: None,
            }),
    {
        RunStats {
            ctx_voluntary: 0,
            ctx_involuntary: 0,
            minor_faults: 0,
            major_faults: 0,
            migrations: None,
        }
    }
}

impl RunStats {
    /// What was counted after `earlier`, counter by counter.
    pub open spec fn counted_since(self, earlier: RunStats) -> RunStats {
        RunStats {
            ctx_voluntary: less(self.ctx_voluntary, earlier.ctx_voluntary),
            ctx_involuntary: less(self.ctx_involuntary, earlier.ctx_involuntary),
            minor_faults: less(self.minor_faults, earlier.minor_faults),
            major_faults: less(self.major_faults, earlier.major_faults),
            migrations: match (self.migrations, earlier.migrations) {
                (Some(a), Some(b)) => Some(less(a, b)),
                _ => None,
            },
        }
    }

    /// What was counted between `earlier` and `self`. A counter that went
    /// backwards counts as 0; migrations are known only if both sides know them.
    pub fn delta_from(&self, earlier: &RunStats) -> (delta: RunStats)
        ensures
            delta == self.counted_since(*earlier),
    {
        RunStats {
            ctx_voluntary: self.ctx_voluntary.saturating_sub(earlier.ctx_voluntary),
            ctx_involuntary: self.ctx_involuntary.saturating_sub(earlier.ctx_involuntary),
            minor_faults: self.minor_faults.saturating_sub(earlier.minor_faults),
            major_faults: self.major_faults.saturating_sub(earlier.major_faults),
            migrations: match (self.migrations, earlier.migrations) {
                (Some(a), Some(b)) => Some(a.saturating_sub(b)),
                _ => None,
            },
        }
    }
}

/// Counting in two steps comes to the same as counting in one, for counters that
/// do not go backwards.
pub proof fn law_deltas_add_up(a: RunStats, b: RunStats, c: RunStats)
    requires
        a.ctx_voluntary <= b.ctx_voluntary <= c.ctx_voluntary,
        a.ctx_involuntary <= b.ctx_involuntary <= c.ctx_involuntary,
        a.minor_faults <= b.minor_faults <= c.minor_faults,
        a.major_faults <= b.major_faults <= c.major_faults,
    ensures
        ({
            let whole = c.counted_since(a);
            let first = b.counted_since(a);
            let second = c.counted_since(b);
            &&& whole.ctx_voluntary == first.ctx_voluntary + second.ctx_voluntary
            &&& whole.ctx_involuntary == first.ctx_involuntary + second.ctx_involuntary
            &&& whole.minor_faults == first.minor_faults + second.minor_faults
            &&& whole.major_faults == first.major_faults + second.major_faults
        }),
{
}

/// The result of one scenario: its latencies, the arrival model that they were
/// measured under, and the noise of the same run.
pub struct Sample {
    pub hist: Histogram,
    pub arrival_model: ArrivalModel,
    pub stats: RunStats,
    /// The target rate could not be kept, so the latencies are those of a
    /// saturated system.
    pub overloaded: bool,
}

impl Sample {
    pub fn arrival_model(&self) -> (m: ArrivalModel)
        ensures
            m == self.arrival_model,
    {
        self.arrival_model
    }
}

/// Heap allocations over a measured region.
#[derive(Copy, Clone, Debug, PartialEq, Eq, Structural)]
pub struct AllocDelta {
    pub blocks: u64,
    pub bytes: u64,
}

impl AllocDelta {
    /// The allocations between two readings of the totals.
    pub fn between(
        blocks_before: u64,
        bytes_before: u64,
        blocks_after: u64,
        bytes_after: u64,
    ) -> (delta: AllocDelta)
        requires
            blocks_before <= blocks_after,
            bytes_before <= bytes_after,
        ensures
            delta.blocks == blocks_after - blocks_before,
            delta.bytes == bytes_after - bytes_before,
    {
        AllocDelta { blocks: blocks_after - blocks_before, bytes: bytes_after - bytes_before }
    }

    /// Whether nothing was allocated.
    pub fn is_zero(&self) -> (zero: bool)
        ensures
            zero == (self.blocks == 0),
    {
        self.blocks == 0
    }
}

/// Counter by counter, what was counted after `earlier` is the difference, and nothing
/// where a counter went backwards. Migrations are known just if both readings know
/// them.
pub proof fn law_counts_are_differences(a: RunStats, b: RunStats)
    ensures
        ({
            let d = b.counted_since(a);
            &&& b.ctx_voluntary >= a.ctx_voluntary ==> d.ctx_voluntary + a.ctx_voluntary
                == b.ctx_voluntary
            &&& b.ctx_voluntary < a.ctx_voluntary ==> d.ctx_voluntary == 0
            &&& b.ctx_involuntary >= a.ctx_involuntary ==> d.ctx_involuntary + a.ctx_involuntary
                == b.ctx_involuntary
            &&& b.ctx_involuntary < a.ctx_involuntary ==> d.ctx_involuntary == 0
            &&& b.minor_faults >= a.minor_faults ==> d.minor_faults + a.minor_faults
                == b.minor_faults
            &&& b.minor_faults < a.minor_faults ==> d.minor_faults == 0
            &&& b.major_faults >= a.major_faults ==> d.major_faults + a.major_faults
                == b.major_faults
            &&& b.major_faults < a.major_faults ==> d.major_faults == 0
            &&& d.migrations is Some <==> a.migrations is Some && b.migrations is Some
            &&& d.migrations is Some && b.migrations->0 >= a.migrations->0 ==> d.migrations->0
                + a.migrations->0 == b.migrations->0
            &&& d.migrations is Some && b.migrations->0 < a.migrations->0 ==> d.migrations->0 == 0
        }),
{
}

} // verus!
