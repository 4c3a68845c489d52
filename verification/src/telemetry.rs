//! Measurement primitives: clock values, latency histograms and the identities
//! that tag emitted records.
pub mod clock;
pub mod figures;
pub mod histogram;
pub mod ids;

pub use clock::{CoreId, Nanos, NicTicks, TscTicks};
pub use figures::Figures;
pub use histogram::Histogram;
pub use ids::{CounterId, EventType, MsgType, PublisherId};
