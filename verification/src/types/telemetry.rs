//! Timing records.
use vstd::prelude::*;

verus! {

/// How long a message took between two points.
#[derive(Copy, Clone, PartialEq, Debug)]
pub struct TimingDelta {
    pub origin_ts: u64,
    pub current_ts: u64,
    pub publisher_id: u32,
    pub msg_type: u8,
    /// The publishing core: the low eight bits of the processor's TSC_AUX
    /// register, or 0xFF where it was not captured.
    pub core_id: u8,
    pub _padding: [u8; 2],
}

} // verus!
