//! Where the matcher puts its events.
use crate::types::OrderEvent;
use vstd::prelude::*;

verus! {

/// A destination for events. Emitting never fails and keeps arrival order; a
/// vector is the plainest sink.
pub trait EventSink {
    /// The events emitted so far, oldest first.
    spec fn emitted(&self) -> Seq<OrderEvent>;

    fn emit(&mut self, event: OrderEvent)
        ensures
            final(self).emitted() == old(self).emitted().push(event),
    ;
}

impl EventSink for Vec<OrderEvent> {
    open spec fn emitted(&self) -> Seq<OrderEvent> {
        self@
    }

    fn emit(&mut self, event: OrderEvent) {
        self.push(event);
    }
}

} // verus!
