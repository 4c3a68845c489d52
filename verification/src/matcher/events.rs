//! The events that are not fills.
use super::sink::EventSink;
use crate::types::{OrderEvent, OrderRequest, RejectReason};
use vstd::prelude::*;

verus! {

/// The refusal of `remaining_qty` of a request. Refusals carry the order id 0.
pub open spec fn reject_event(
    reason: RejectReason,
    remaining_qty: u64,
    req: OrderRequest,
) -> OrderEvent {
    OrderEvent::Reject {
        id: 0,
        reason,
        remaining_qty,
        origin_ts: req.origin_ts,
        intent_hash: req.intent_hash,
    }
}

/// The confirmation that the order `id` was cancelled.
pub open spec fn cancel_event(id: u64, req: OrderRequest) -> OrderEvent {
    OrderEvent::Cancel { id, origin_ts: req.origin_ts, intent_hash: req.intent_hash }
}

/// Emit a refusal. A request refused as a whole passes its quantity, a refused
/// cancellation passes 0, and a partly filled request passes what is left.
pub(crate) fn push_reject<S: EventSink>(
    reason: RejectReason,
    remaining_qty: u64,
    req: &OrderRequest,
    out: &mut S,
)
    ensures
        final(out).emitted() == old(out).emitted().push(reject_event(reason, remaining_qty, *req)),
{
    out.emit(
        OrderEvent::Reject {
            id: 0,
            reason,
            remaining_qty,
            origin_ts: req.origin_ts,
            intent_hash: req.intent_hash,
        },
    );
}

/// Emit the confirmation of a cancellation.
pub(crate) fn push_cancel<S: EventSink>(id: u64, req: &OrderRequest, out: &mut S)
    ensures
        final(out).emitted() == old(out).emitted().push(cancel_event(id, *req)),
{
    out.emit(
        OrderEvent::Cancel { id, origin_ts: req.origin_ts, intent_hash: req.intent_hash },
    );
}

} // verus!
