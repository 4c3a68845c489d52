//! Single-producer ring queue with independent consumers.
//!
//! Every slot carries a version: odd while it is being written, even once it is
//! stable, and two higher on every lap of the ring. A consumer compares the
//! version it sees with the one its own position calls for and so knows whether
//! the value is not there yet, is there, or has been overwritten. What happens
//! to an overtaken consumer is its [`LapPolicy`].
//!
//! [`Queue`], [`Producer`] and [`Consumer`] here run one operation at a time.
//! The version arithmetic in [`slot`] and the transitions of [`Consumer`] are
//! what a lock-free queue is built from as well.
pub mod policy;
pub mod queue;
pub mod slot;

pub use policy::{LapPolicy, PollResult};
pub use queue::{Consumer, Producer, Queue};
pub use slot::SlotState;
