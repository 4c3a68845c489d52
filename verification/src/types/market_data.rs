//! Market data records.
use super::enums::Side;
use vstd::prelude::*;

verus! {

/// A change of the quantity resting at one price.
#[derive(Copy, Clone, PartialEq, Debug)]
pub struct L2Update {
    pub price: u64,
    pub quantity: u64,
    pub timestamp: u64,
    pub instrument_id: u32,
    pub side: Side,
    pub _padding: [u8; 3],
}

} // verus!
