//! A deterministic limit-order matching core, with its benchmark bookkeeping.
//!
//! * [`types`]: orders, requests, events and their fixed-size wire records.
//! * [`arena`]: generational slot storage with stable handles.
//! * [`orderbook`]: one instrument's book in price-time priority.
//! * [`matcher`]: the engine that matches requests against books.
//! * [`ipc`]: the ring queue that carries events to independent consumers.
//! * [`telemetry`]: clock values and latency histograms.
//! * [`benchkit`]: the bookkeeping, reports and comparisons of benchmark runs.
//! * [`xtask`]: the decisions of the benchmark runner.
//! * [`fx_map`] and [`text`]: hash maps and text, for the modules above.

pub mod arena;
pub mod benchkit;
pub mod fx_map;
pub mod ipc;
pub mod matcher;
pub mod orderbook;
pub mod telemetry;
pub mod text;
pub mod types;
pub mod xtask;
pub mod xtask_laws;
