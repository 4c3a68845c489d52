//! What happens to a consumer that the producer has overtaken.
use vstd::prelude::*;

verus! {

#[derive(Copy, Clone, Debug, PartialEq, Eq, Structural)]
pub enum LapPolicy {
    /// The consumer stops for good.
    Halt,
    /// Being overtaken is a programming error.
    Panic,
    /// Go on from the producer's position, and tell someone.
    SkipAndAlert,
    /// Go on from the producer's position.
    SkipToLatest,
}

/// The answer of a poll.
#[derive(Debug, PartialEq, Eq)]
pub enum PollResult<T> {
    /// The next value.
    Ready(T),
    /// Nothing new yet.
    Empty,
    /// Overtaken under `Halt`; the consumer stays at `last_safe_seq`.
    Halted { last_safe_seq: u64, slots_lost: u64 },
    /// Overtaken under a skip policy; the consumer is now at `new_seq`.
    Skipped { slots_lost: u64, new_seq: u64 },
}

} // verus!
