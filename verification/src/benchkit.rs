//! Benchmark bookkeeping: workloads, run environment, reports and comparisons.
//!
//! What needs the machine itself, the time stamp counter, files or programs, is
//! outside of this crate; it hands its readings in as plain values. Figures that
//! are not whole numbers come as text or as ranks.
pub mod artifacts;
pub mod calendar;
pub mod comparison;
pub mod dates;
pub mod env;
pub mod iters;
pub mod laws;
pub mod lcg;
pub mod report;
pub mod runner;
pub mod shown;
pub mod stats;
pub mod suite;

pub use artifacts::RunPaths;
pub use comparison::{Comparison, Verdict};
pub use env::{RunEnv, Turbo};
pub use iters::Iters;
pub use lcg::Lcg;
pub use report::{Delta, Report};
pub use stats::{AllocDelta, ArrivalModel, RunStats, Sample};
pub use suite::MeasurementIntent;
