//! The bookkeeping of a run.
//!
//! Operations run back to back are timed one by one; the first ones only warm up
//! and are not recorded. In an open-loop run operation `k` is due `k` intervals
//! after the start, whatever the operations before it took. An operation that
//! comes up when it was due already is late: the one before it overran. The first
//! operation has none before it and is never late. A run with too many late
//! operations is overloaded.
use super::iters::{Iters, Phase};
use super::stats::{ArrivalModel, RunStats, Sample};
use crate::telemetry::histogram;
use crate::telemetry::{Histogram, Nanos};
use vstd::prelude::*;

verus! {

/// The share of late operations, in percent, from which on a run counts as
/// overloaded.
pub const OVERLOAD_PCT: u64 = 5;

/// `k` intervals, no more than a machine word holds.
pub open spec fn offset(k: nat, interval_ticks: u64) -> nat {
    if k * interval_ticks > u64::MAX {
        u64::MAX as nat
    } else {
        k * interval_ticks as nat
    }
}

/// When the next operation of an open-loop run is due, and how many were late.
#[derive(Copy, Clone, Debug, PartialEq, Eq)]
pub struct Schedule {
    pub start: u64,
    pub interval_ticks: u64,
    /// How many operations have come up.
    pub next: u64,
    pub late_ops: u64,
}

/// What to do with the next operation.
#[derive(Copy, Clone, Debug, PartialEq, Eq, Structural)]
pub enum Arrival {
    /// Run once the clock has reached `deadline`.
    WaitUntil { deadline: u64 },
    /// It was due already, because the one before it overran: run at once.
    Late,
}

impl Schedule {
    /// No more operations were late than have come up.
    pub open spec fn wf(self) -> bool {
        self.late_ops <= self.next
    }

    /// When the next operation is due.
    pub open spec fn due(self) -> nat {
        self.start as nat + offset(self.next as nat, self.interval_ticks)
    }

    /// The schedule after an operation has come up when the clock showed `now`.
    pub open spec fn arrived(self, now: u64) -> Schedule {
        Schedule {
            next: (self.next + 1) as u64,
            late_ops: if now < self.due() || self.next == 0 {
                self.late_ops
            } else {
                (self.late_ops + 1) as u64
            },
            ..self
        }
    }

    /// The schedule after operations have come up at the times of `clock`.
    pub open spec fn after(self, clock: Seq<u64>) -> Schedule
        decreases clock.len(),
    {
        if clock.len() == 0 {
            self
        } else {
            self.after(clock.drop_last()).arrived(clock.last())
        }
    }

    pub fn new(start: u64, interval_ticks: u64) -> (s: Schedule)
        ensures
            s == (Schedule { start, interval_ticks, next: 0, late_ops: 0 }),
            s.wf(),
    {
        Schedule { start, interval_ticks, next: 0, late_ops: 0 }
    }

    /// The next operation comes up when the clock shows `now`.
    pub fn arrive(&mut self, now: u64) -> (r: Arrival)
        requires
            old(self).wf(),
            old(self).due() <= u64::MAX,
            old(self).next < u64::MAX,
        ensures
            final(self).wf(),
            *final(self) == old(self).arrived(now),
            r == if now < old(self).due() || old(self).next == 0 {
                Arrival::WaitUntil { deadline: old(self).due() as u64 }
            } else {
                Arrival::Late
            },
    {
        let ahead: u64 = match self.next.checked_mul(self.interval_ticks) {
            Some(ticks) => ticks,
            None => u64::MAX,
        };
        let deadline: u64 = self.start + ahead;
        let first: bool = self.next == 0;
        self.next = self.next + 1;
        if now < deadline || first {
            Arrival::WaitUntil { deadline }
        } else {
            self.late_ops = self.late_ops + 1;
            Arrival::Late
        }
    }
}

/// Whether too many of `measure` operations were late for the run to count as
/// latency under load.
pub fn is_overloaded(late_ops: u64, measure: u64) -> (r: bool)
    requires
        late_ops * 100 <= u64::MAX,
        measure * OVERLOAD_PCT <= u64::MAX,
    ensures
        r == (late_ops * 100 >= measure * 5),
        r <==> 20 * late_ops >= measure,
{
    late_ops * 100 >= measure * OVERLOAD_PCT
}

/// The schedule is open-loop: the operation after those of `clock` is due that
/// many intervals on, whenever they came up.
pub proof fn law_delays_move_no_deadline(s: Schedule, clock: Seq<u64>)
    requires
        s.wf(),
        s.next + clock.len() <= u64::MAX,
    ensures
        s.after(clock).due() == s.start as nat + offset(s.next as nat + clock.len(), s.interval_ticks),
        s.after(clock).start == s.start,
        s.after(clock).interval_ticks == s.interval_ticks,
        s.after(clock).next == s.next + clock.len(),
        s.late_ops <= s.after(clock).late_ops <= s.late_ops + clock.len(),
    decreases clock.len(),
{
    if clock.len() > 0 {
        law_delays_move_no_deadline(s, clock.drop_last());
    }
}

/// Every operation of `clock` but the first of the run comes up before it is due:
/// the run keeps its rate.
pub open spec fn keeps_rate(s: Schedule, clock: Seq<u64>) -> bool {
    forall|k: int|
        0 <= k < clock.len() && s.next + k > 0 ==> (#[trigger] clock[k]) < s.start + offset(
            (s.next + k) as nat,
            s.interval_ticks,
        )
}

/// A run that keeps its rate has no late operation, so it is not overloaded.
pub proof fn law_sustained_run_is_not_overloaded(s: Schedule, clock: Seq<u64>)
    requires
        s.wf(),
        s.next + clock.len() <= u64::MAX,
        keeps_rate(s, clock),
    ensures
        s.after(clock).late_ops == s.late_ops,
        s.late_ops == 0 && clock.len() > 0 ==> s.after(clock).late_ops * 100 < s.after(clock).next
            * 5,
    decreases clock.len(),
{
    law_delays_move_no_deadline(s, clock);
    if clock.len() > 0 {
        let front = clock.drop_last();
        assert forall|k: int| 0 <= k < front.len() && s.next + k > 0 implies (#[trigger] front[k])
            < s.start + offset((s.next + k) as nat, s.interval_ticks) by {
            assert(front[k] == clock[k]);
        }
        law_sustained_run_is_not_overloaded(s, front);
        law_delays_move_no_deadline(s, front);
        assert(clock[clock.len() - 1] == clock.last());
    }
}

/// A run of operations back to back.
pub struct BackToBack {
    pub hist: Histogram,
    pub iters: Iters,
    /// How many operations have run.
    pub done: usize,
}

impl BackToBack {
    /// The histogram holds the operations after the warmup, and no others.
    pub open spec fn wf(self) -> bool {
        &&& self.hist.wf()
        &&& self.iters.warmup + self.iters.measure <= usize::MAX
        &&& self.done <= self.iters.warmup + self.iters.measure
        &&& self.hist@.samples.len() == if self.done <= self.iters.warmup {
            0
        } else {
            (self.done - self.iters.warmup) as nat
        }
    }

    pub fn new(label: &str, iters: Iters) -> (run: BackToBack)
        requires
            iters.warmup + iters.measure <= usize::MAX,
        ensures
            run.wf(),
            run.iters == iters,
            run.done == 0,
            run.hist@ == histogram::HistogramModel::empty(),
            run.hist.label@ == label@,
    {
        BackToBack { hist: Histogram::new(label), iters, done: 0 }
    }

    /// The number of the next operation and what it is for, unless all have run.
    pub fn next(&self) -> (r: Option<(usize, Phase)>)
        requires
            self.wf(),
        ensures
            r == if self.done == self.iters.warmup + self.iters.measure {
                None
            } else if self.done < self.iters.warmup {
                Some((self.done, Phase::Warmup))
            } else if self.done == self.iters.warmup {
                Some((self.done, Phase::FirstMeasured))
            } else {
                Some((self.done, Phase::Measured))
            },
    {
        if self.done == self.iters.total() {
            None
        } else {
            Some((self.done, self.iters.phase(self.done)))
        }
    }

    /// The next operation took `took`: record it unless it was for warmup.
    pub fn ran(&mut self, took: Nanos)
        requires
            old(self).wf(),
            old(self).done < old(self).iters.warmup + old(self).iters.measure,
        ensures
            final(self).wf(),
            final(self).iters == old(self).iters,
            final(self).done == old(self).done + 1,
            final(self).hist.label == old(self).hist.label,
            final(self).hist@ == if old(self).done < old(self).iters.warmup {
                old(self).hist@
            } else {
                old(self).hist@.plus(took.0)
            },
    {
        if self.done >= self.iters.warmup {
            self.hist.record(took);
        }
        self.done = self.done + 1;
    }

    /// The result of the run, with the counters read before the first recorded
    /// operation and after the last one: exactly the measured operations.
    pub fn finish(self, before: &RunStats, after: &RunStats) -> (sample: Sample)
        requires
            self.wf(),
            self.done == self.iters.warmup + self.iters.measure,
        ensures
            sample.hist == self.hist,
            sample.hist@.samples.len() == self.iters.measure,
            sample.arrival_model == ArrivalModel::BackToBack,
            sample.stats == after.counted_since(*before),
            !sample.overloaded,
    {
        Sample {
            hist: self.hist,
            arrival_model: ArrivalModel::BackToBack,
            stats: after.delta_from(before),
            overloaded: false,
        }
    }
}

/// A run of operations on a schedule.
pub struct OpenLoop {
    pub hist: Histogram,
    pub interval: Nanos,
    pub schedule: Schedule,
    /// How many operations have run.
    pub done: u64,
}

impl OpenLoop {
    /// At most one operation has come up and not run yet, and the histogram holds
    /// at least one sample for each one that ran.
    pub open spec fn wf(self) -> bool {
        &&& self.hist.wf()
        &&& self.schedule.wf()
        &&& self.done <= self.schedule.next <= self.done + 1
        &&& self.done <= self.hist@.samples.len()
    }

    /// A run with an operation every `interval`, which is `interval_ticks` of the
    /// clock, from the time `start` on.
    pub fn new(label: &str, interval: Nanos, start: u64, interval_ticks: u64) -> (run: OpenLoop)
        ensures
            run.wf(),
            run.interval == interval,
            run.schedule == (Schedule { start, interval_ticks, next: 0, late_ops: 0 }),
            run.done == 0,
            run.hist@ == histogram::HistogramModel::empty(),
            run.hist.label@ == label@,
    {
        OpenLoop {
            hist: Histogram::new(label),
            interval,
            schedule: Schedule::new(start, interval_ticks),
            done: 0,
        }
    }

    /// The next operation comes up when the clock shows `now`.
    pub fn arrive(&mut self, now: u64) -> (r: Arrival)
        requires
            old(self).wf(),
            old(self).done == old(self).schedule.next,
            old(self).schedule.due() <= u64::MAX,
            old(self).schedule.next < u64::MAX,
        ensures
            final(self).wf(),
            final(self).hist == old(self).hist,
            final(self).interval == old(self).interval,
            final(self).done == old(self).done,
            final(self).schedule == old(self).schedule.arrived(now),
            r == if now < old(self).schedule.due() || old(self).schedule.next == 0 {
                Arrival::WaitUntil { deadline: old(self).schedule.due() as u64 }
            } else {
                Arrival::Late
            },
    {
        self.schedule.arrive(now)
    }

    /// The operation took `took`: record it together with the operations that
    /// were due meanwhile.
    pub fn ran(&mut self, took: Nanos)
        requires
            old(self).wf(),
            old(self).done < old(self).schedule.next,
            old(self).hist@.samples.len() + histogram::corrected_count(took.0, old(self).interval.0)
                <= u64::MAX,
        ensures
            final(self).wf(),
            final(self).interval == old(self).interval,
            final(self).schedule == old(self).schedule,
            final(self).done == old(self).done + 1,
            final(self).hist.label == old(self).hist.label,
            final(self).hist@ == old(self).hist@.corrected(took.0, old(self).interval.0),
    {
        proof {
            histogram::law_correction_count(self.hist@, took.0, self.interval.0);
        }
        self.hist.record_correct(took, self.interval);
        self.done = self.done + 1;
    }

    /// The result of a run of `measure` operations, with the counters read before
    /// the first and after the last one.
    pub fn finish(self, measure: u64, before: &RunStats, after: &RunStats) -> (sample: Sample)
        requires
            self.wf(),
            measure == self.schedule.next,
            measure == self.done,
            self.schedule.late_ops * 100 <= u64::MAX,
            measure * OVERLOAD_PCT <= u64::MAX,
        ensures
            sample.hist == self.hist,
            sample.hist@.samples.len() >= measure,
            sample.arrival_model == (ArrivalModel::OpenLoop { interval_ns: self.interval.0 }),
            sample.stats == after.counted_since(*before),
            sample.overloaded == (self.schedule.late_ops * 100 >= measure * 5),
            sample.overloaded <==> 20 * self.schedule.late_ops >= self.done,
    {
        Sample {
            hist: self.hist,
            arrival_model: ArrivalModel::OpenLoop { interval_ns: self.interval.as_u64() },
            stats: after.delta_from(before),
            overloaded: is_overloaded(self.schedule.late_ops, measure),
        }
    }
}

/// The histogram of a run whose operations took `took`, one after the other.
pub open spec fn timed(took: Seq<u64>, interval: u64) -> histogram::HistogramModel
    decreases took.len(),
{
    if took.len() == 0 {
        histogram::HistogramModel::empty()
    } else {
        timed(took.drop_last(), interval).corrected(took.last(), interval)
    }
}

/// An open-loop run holds at least one sample for each operation, and exactly one
/// if every operation stays within its interval; a single operation that takes two
/// intervals or more adds samples for those that it kept waiting.
pub proof fn law_stalls_add_samples(took: Seq<u64>, interval: u64)
    ensures
        timed(took, interval).samples.len() >= took.len(),
        (forall|k: int| 0 <= k < took.len() ==> #[trigger] took[k] <= interval) ==> timed(
            took,
            interval,
        ).samples.len() == took.len(),
        interval > 0 && (exists|k: int| 0 <= k < took.len() && #[trigger] took[k] >= 2 * interval)
            ==> timed(took, interval).samples.len() > took.len(),
    decreases took.len(),
{
    if took.len() > 0 {
        let front = took.drop_last();
        let last = took.last();
        law_stalls_add_samples(front, interval);
        histogram::law_correction_count(timed(front, interval), last, interval);
        assert forall|k: int| 0 <= k < front.len() implies #[trigger] front[k] == took[k] by {}
        if interval > 0 && last >= 2 * interval {
            assert(last / interval >= 2) by (nonlinear_arith)
                requires
                    interval > 0,
                    last >= 2 * interval,
            ;
        } else if interval > 0 {
            if exists|k: int| 0 <= k < took.len() && #[trigger] took[k] >= 2 * interval {
                let k = choose|k: int| 0 <= k < took.len() && #[trigger] took[k] >= 2 * interval;
                assert(front[k] >= 2 * interval);
            }
        }
        assert(took[took.len() - 1] == last);
    }
}

/// Operation `k` of a run is due `k` intervals after its start. It is late just if the
/// clock has reached that time when it comes up, and operation 0 never is.
pub proof fn law_lateness_goes_by_the_clock(s: Schedule, now: u64)
    requires
        s.wf(),
        s.next < u64::MAX,
        s.next * s.interval_ticks <= u64::MAX,
    ensures
        s.due() == s.start + s.next * s.interval_ticks,
        s.arrived(now).next == s.next + 1,
        s.arrived(now).start == s.start,
        s.arrived(now).interval_ticks == s.interval_ticks,
        s.arrived(now).late_ops - s.late_ops == if s.next > 0 && now >= s.start + s.next
            * s.interval_ticks {
            1int
        } else {
            0
        },
{
}

/// A deadline that no machine word holds is as late as one can be.
pub proof fn law_far_deadlines_saturate(s: Schedule)
    ensures
        s.next * s.interval_ticks > u64::MAX ==> s.due() == s.start + u64::MAX,
        s.next * s.interval_ticks <= u64::MAX ==> s.due() == s.start + s.next * s.interval_ticks,
{
}

} // verus!
