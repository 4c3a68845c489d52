//! Multi-instrument matching engine.
//!
//! [`Engine`] owns one order book per registered instrument, mints order ids and
//! emits [`OrderEvent`](crate::types::OrderEvent)s to a caller-supplied
//! [`EventSink`].
//!
//! What a request does is a function of the abstract state, [`EngineModel`]:
//! the specification function `engine::step` gives the next state and the
//! events, and the executable functions are proved to compute it.
pub mod engine;
pub mod events;
pub mod laws;
pub mod matching;
pub mod outcome;
pub mod priority;
pub mod sink;

pub use engine::{AddInstrumentError, Engine, EngineModel};
pub use sink::EventSink;
