//! Single-instrument continuous central limit order book.
//!
//! [`OrderBook`] owns one arena of order nodes, one ordered map of price levels
//! per side and a hash map from intent hash to arena handle. Each
//! [`PriceLevel`] is a doubly linked queue threaded through the arena, so an
//! order found by its intent hash is spliced out without a scan. The map orders
//! levels by price and each queue keeps arrival order, which together is
//! price-time priority.
//!
//! The abstract state of a book is a [`BookModel`]: for each side, the resting
//! orders in the order in which they would trade.
pub mod book;
pub mod cursor;
pub mod ladder;
pub mod laws;
pub mod level;
pub mod model;

pub use book::{InsertError, OrderBook, TopView};
pub use cursor::LevelCursor;
pub use level::{OrderNode, PriceLevel};
pub use model::{BookModel, Entry};
