//! Orders, requests, events and the fixed-size records that carry them.
pub mod enums;
pub mod events;
pub mod ids;
pub mod market_data;
pub mod order;
pub mod position;
pub mod telemetry;
pub mod wire;

use vstd::prelude::*;

pub use enums::{OrderType, RejectReason, RequestType, Side, TimeInForce};
pub use events::{InvalidTag, OrderEvent, PodOrderEvent};
pub use ids::{IntentHash, OrderId};
pub use market_data::L2Update;
pub use order::{Order, OrderRequest};
pub use position::{PodPosition, Position};
pub use telemetry::TimingDelta;

verus! {

/// Prices are integers in units of one part in this many.
pub const PRICE_SCALE: u64 = 100_000_000;

} // verus!
