//! What a suite measures, and how it composes its report.
use super::env::RunEnv;
use super::iters::Iters;
use super::report::{Report, SampleView};
use crate::text;
use crate::text::{push_decimal, push_str};
use vstd::prelude::*;

verus! {

/// What is to be measured. Every enabled measurement is a pass of its own.
#[derive(Copy, Clone, Debug, PartialEq, Eq, Structural)]
pub struct MeasurementIntent {
    /// Latency of operations run back to back.
    pub latency: bool,
    /// Latency of operations on a fixed schedule.
    pub latency_under_load: bool,
    /// Heap allocations; runs as a program of its own.
    pub allocations: bool,
    /// Cache and instruction counts; runs as a program of its own.
    pub cache_and_instructions: bool,
}

impl Default for MeasurementIntent {
    fn default() -> (intent: MeasurementIntent)
        ensures
            intent == MeasurementIntent::latency(),
    {
        MeasurementIntent::latency()
    }
}

impl MeasurementIntent {
    /// Latency alone.
    #[verifier::allow_in_spec]
    pub fn latency() -> MeasurementIntent
        returns
            (MeasurementIntent {
                latency: true,
                latency_under_load: false,
                allocations: false,
                cache_and_instructions: false,
            }),
    {
        MeasurementIntent {
            latency: true,
            latency_under_load: false,
            allocations: false,
            cache_and_instructions: false,
        }
    }

    pub fn with_load(self) -> (intent: MeasurementIntent)
        ensures
            intent == (MeasurementIntent { latency_under_load: true, ..self }),
    {
        MeasurementIntent { latency_under_load: true, ..self }
    }

    pub fn with_allocations(self) -> (intent: MeasurementIntent)
        ensures
            intent == (MeasurementIntent { allocations: true, ..self }),
    {
        MeasurementIntent { allocations: true, ..self }
    }

    pub fn with_cache(self) -> (intent: MeasurementIntent)
        ensures
            intent == (MeasurementIntent { cache_and_instructions: true, ..self }),
    {
        MeasurementIntent { cache_and_instructions: true, ..self }
    }

    /// The requested measurements that this program cannot make itself.
    pub fn notes(&self) -> (r: Vec<&'static str>)
        ensures
            r@.len() == (if self.allocations {
                1int
            } else {
                0
            }) + (if self.cache_and_instructions {
                1int
            } else {
                0
            }),
            self.allocations ==> r@[0]@
                == "note: allocation regime requested — run the dhat alloc-proof binary separately (feature `alloc`); it is a distinct pass from latency."@,
            self.cache_and_instructions ==> r@[r@.len() - 1]@
                == "note: cache/instruction regime requested — run `cargo bench --features iai --bench <crate>_iai`; callgrind cannot share this process."@,
    {
        let mut out: Vec<&'static str> = Vec::new();
        if self.allocations {
            out.push(
                "note: allocation regime requested — run the dhat alloc-proof binary separately (feature `alloc`); it is a distinct pass from latency.",
            );
        }
        if self.cache_and_instructions {
            out.push(
                "note: cache/instruction regime requested — run `cargo bench --features iai --bench <crate>_iai`; callgrind cannot share this process.",
            );
        }
        out
    }
}

/// The time between operations at `ops_per_sec`; a rate of 0 leaves it as it is.
pub fn interval_for_rate(current_ns: u64, ops_per_sec: u64) -> (r: u64)
    ensures
        r == if ops_per_sec == 0 {
            current_ns
        } else {
            1_000_000_000u64 / ops_per_sec
        },
        ops_per_sec > 0 ==> r * ops_per_sec <= 1_000_000_000 < (r + 1) * ops_per_sec,
{
    if ops_per_sec > 0 {
        proof {
            let n = ops_per_sec as int;
            let q = 1_000_000_000int / n;
            vstd::arithmetic::div_mod::lemma_fundamental_div_mod(1_000_000_000, n);
            vstd::arithmetic::div_mod::lemma_mod_bound(1_000_000_000, n);
            assert(q * n == n * q && (q + 1) * n == n * q + n) by (nonlinear_arith);
        }
        1_000_000_000 / ops_per_sec
    } else {
        current_ns
    }
}

/// The label of a scenario's pass under load.
pub fn load_label(label: &str) -> (r: String)
    ensures
        r@ == label@ + "@load"@,
{
    let mut s = label.to_string();
    push_str(&mut s, "@load");
    s
}

/// What a suite's report says about its scope.
pub open spec fn scope_text(scenarios: nat, iters: Iters) -> Seq<char> {
    "engine-internal `op()` latency; "@ + text::decimal(scenarios)
        + " scenario(s). rdtscp-fenced, warmup "@ + text::decimal(iters.warmup as nat)
        + " / measure "@ + text::decimal(iters.measure as nat) + "."@
}

pub fn suite_scope(scenarios: usize, iters: Iters) -> (r: String)
    ensures
        r@ == scope_text(scenarios as nat, iters),
{
    let mut s = "engine-internal `op()` latency; ".to_string();
    push_decimal(&mut s, scenarios as u64);
    push_str(&mut s, " scenario(s). rdtscp-fenced, warmup ");
    push_decimal(&mut s, iters.warmup as u64);
    push_str(&mut s, " / measure ");
    push_decimal(&mut s, iters.measure as u64);
    push_str(&mut s, ".");
    s
}

/// The report of a suite: one section per pass that has samples.
pub fn suite_report(
    env: RunEnv,
    name: &str,
    iters: Iters,
    samples: Vec<SampleView>,
    load_samples: Vec<SampleView>,
) -> (r: Report)
    ensures
        r.env == env,
        r.title@ == name@,
        r.scope@ == scope_text(samples@.len(), iters),
        r.deltas@.len() == 0,
        r.sections@.len() == (if samples@.len() > 0 {
            1int
        } else {
            0
        }) + (if load_samples@.len() > 0 {
            1int
        } else {
            0
        }),
        samples@.len() > 0 ==> r.sections@[0].samples == samples && r.sections@[0].title@
            == "Latency (back-to-back)"@,
        load_samples@.len() > 0 ==> r.sections@[r.sections@.len() - 1].samples == load_samples
            && r.sections@[r.sections@.len() - 1].title@
            == "Latency under load (open-loop, CO-corrected)"@,
{
    let scope = suite_scope(samples.len(), iters);
    let mut report = Report::new(env, name, scope.as_str());
    if samples.len() > 0 {
        report.section("Latency (back-to-back)", samples);
    }
    let ghost first = report.sections@;
    if load_samples.len() > 0 {
        report.section("Latency under load (open-loop, CO-corrected)", load_samples);
        assert(first == report.sections@.drop_last());
        assert(samples@.len() > 0 ==> report.sections@[0] == report.sections@.drop_last()[0]);
    }
    report
}

} // verus!
