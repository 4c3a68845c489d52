//! Orders and the requests that create them.
use super::enums::{OrderType, RequestType, Side, TimeInForce};
use super::ids::{IntentHash, OrderId};
use vstd::prelude::*;

verus! {

/// An order as it rests on a book.
#[derive(Copy, Clone, PartialEq, Debug)]
pub struct Order {
    pub order_id: OrderId,
    pub price: u64,
    pub quantity: u64,
    pub origin_ts: u64,
    pub instrument_id: u32,
    pub side: Side,
    pub order_type: OrderType,
    pub tif: TimeInForce,
    pub _padding: u8,
    pub intent_hash: IntentHash,
}

/// A request to create, cancel or amend an order.
#[derive(Copy, Clone, PartialEq, Debug)]
pub struct OrderRequest {
    pub price: u64,
    pub quantity: u64,
    pub origin_ts: u64,
    pub instrument_id: u32,
    pub side: Side,
    pub order_type: OrderType,
    pub tif: TimeInForce,
    pub request_type: RequestType,
    pub intent_hash: IntentHash,
}

} // verus!
