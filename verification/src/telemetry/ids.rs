//! Identities that tag emitted records.
use vstd::prelude::*;

verus! {

#[derive(Copy, Clone, PartialEq, Eq, Structural, Hash, Debug)]
pub struct PublisherId(pub u32);

impl PublisherId {
    /// A publisher that was not recorded.
    #[verifier::allow_in_spec]
    pub fn unknown() -> PublisherId
        returns
            (PublisherId(0)),
    {
        PublisherId(0)
    }

    /// The publisher of benchmark records.
    #[verifier::allow_in_spec]
    pub fn benchmark() -> PublisherId
        returns
            (PublisherId(999)),
    {
        PublisherId(999)
    }
}

#[derive(Copy, Clone, PartialEq, Eq, Structural, Debug)]
pub enum MsgType {
    Unknown,
    Benchmark,
}

#[derive(Copy, Clone, PartialEq, Eq, Structural, Debug)]
pub enum CounterId {
    Unknown,
    TelemetryDroppedCum,
}

#[derive(Copy, Clone, PartialEq, Eq, Structural, Debug)]
pub enum EventType {
    Unknown,
    CorePinningViolation,
}

impl MsgType {
    /// The number that stands for this value in a record.
    pub fn code(self) -> (n: u8)
        ensures
            n == match self {
                MsgType::Unknown => 0u8,
                MsgType::Benchmark => 1u8,
            },
    {
        match self {
            MsgType::Unknown => 0,
            MsgType::Benchmark => 1,
        }
    }
}

impl CounterId {
    /// The number that stands for this value in a record.
    pub fn code(self) -> (n: u16)
        ensures
            n == match self {
                CounterId::Unknown => 0u16,
                CounterId::TelemetryDroppedCum => 5u16,
            },
    {
        match self {
            CounterId::Unknown => 0,
            CounterId::TelemetryDroppedCum => 5,
        }
    }
}

impl EventType {
    /// The number that stands for this value in a record.
    pub fn code(self) -> (n: u16)
        ensures
            n == match self {
                EventType::Unknown => 0u16,
                EventType::CorePinningViolation => 3u16,
            },
    {
        match self {
            EventType::Unknown => 0,
            EventType::CorePinningViolation => 3,
        }
    }
}

} // verus!
