//! What the matcher reports about orders.
use super::enums::{OrderType, RejectReason, Side, TimeInForce};
use super::ids::{IntentHash, OrderId};
use super::order::Order;
use super::wire;
use super::wire::{get_hash, get_u32, get_u64, put_hash, put_u32, put_u64};
use vstd::prelude::*;

verus! {

/// A change in the life of an order.
#[derive(Copy, Clone, Debug, PartialEq)]
pub enum OrderEvent {
    /// The order rests on the book.
    New(Order),
    /// The order has filled completely.
    Fill {
        id: u64,
        fill_qty: u64,
        fill_price: u64,
        origin_ts: u64,
        intent_hash: IntentHash,
    },
    /// Part of the order has filled.
    PartialFill {
        id: u64,
        fill_qty: u64,
        fill_price: u64,
        remaining_qty: u64,
        origin_ts: u64,
        intent_hash: IntentHash,
    },
    /// The order was taken off the book.
    Cancel { id: u64, origin_ts: u64, intent_hash: IntentHash },
    /// The request, or what is left of it, was refused.
    Reject {
        id: u64,
        reason: RejectReason,
        remaining_qty: u64,
        origin_ts: u64,
        intent_hash: IntentHash,
    },
}

/// A record byte that stands for no known value.
#[derive(Copy, Clone, Debug, PartialEq, Eq, Structural)]
pub struct InvalidTag(pub u8);

/// An event as a fixed-size record: a tag, a timestamp and 72 payload bytes.
/// Numbers are stored little-endian.
#[derive(Copy, Clone, Debug, PartialEq)]
pub struct PodOrderEvent {
    pub tag: u8,
    pub _pad: [u8; 7],
    pub origin_ts: u64,
    pub payload: [u8; 72],
}

/// Every byte of `s` from `from` on is zero.
pub open spec fn zero_from(s: Seq<u8>, from: int) -> bool {
    forall|i: int| from <= i < s.len() ==> #[trigger] s[i] == 0
}

/// The payload holds the fields of `order`, in declaration order.
pub open spec fn holds_order(payload: Seq<u8>, order: Order) -> bool {
    &&& payload.len() == 72
    &&& wire::field_at(payload, 0, wire::le64(order.order_id.0))
    &&& wire::field_at(payload, 8, wire::le64(order.price))
    &&& wire::field_at(payload, 16, wire::le64(order.quantity))
    &&& wire::field_at(payload, 24, wire::le64(order.origin_ts))
    &&& wire::field_at(payload, 32, wire::le32(order.instrument_id))
    &&& payload[36] == order.side.code()
    &&& payload[37] == order.order_type.code()
    &&& payload[38] == order.tif.code()
    &&& payload[39] == order._padding
    &&& wire::field_at(payload, 40, order.intent_hash.0@)
}

impl PodOrderEvent {
    /// The record's tag, timestamp and used payload bytes are those of `event`.
    pub open spec fn holds(self, event: OrderEvent) -> bool {
        let p = self.payload@;
        match event {
            OrderEvent::New(order) => self.tag == 0 && holds_order(p, order),
            OrderEvent::Fill { id, fill_qty, fill_price, origin_ts, intent_hash } => {
                &&& self.tag == 1
                &&& self.origin_ts == origin_ts
                &&& wire::field_at(p, 0, wire::le64(id))
                &&& wire::field_at(p, 8, wire::le64(fill_qty))
                &&& wire::field_at(p, 16, wire::le64(fill_price))
                &&& wire::field_at(p, 24, intent_hash.0@)
            },
            OrderEvent::PartialFill {
                id,
                fill_qty,
                fill_price,
                remaining_qty,
                origin_ts,
                intent_hash,
            } => {
                &&& self.tag == 2
                &&& self.origin_ts == origin_ts
                &&& wire::field_at(p, 0, wire::le64(id))
                &&& wire::field_at(p, 8, wire::le64(fill_qty))
                &&& wire::field_at(p, 16, wire::le64(fill_price))
                &&& wire::field_at(p, 24, wire::le64(remaining_qty))
                &&& wire::field_at(p, 32, intent_hash.0@)
            },
            OrderEvent::Cancel { id, origin_ts, intent_hash } => {
                &&& self.tag == 3
                &&& self.origin_ts == origin_ts
                &&& wire::field_at(p, 0, wire::le64(id))
                &&& wire::field_at(p, 8, intent_hash.0@)
            },
            OrderEvent::Reject { id, reason, remaining_qty, origin_ts, intent_hash } => {
                &&& self.tag == 4
                &&& self.origin_ts == origin_ts
                &&& wire::field_at(p, 0, wire::le64(id))
                &&& wire::field_at(p, 8, intent_hash.0@)
                &&& wire::field_at(p, 40, wire::le64(remaining_qty))
                &&& p[48] == reason.code()
            },
        }
    }

    /// The record is the one written for `event`: it holds the event, mirrors
    /// its timestamp in the header, and is zero everywhere else.
    pub open spec fn encodes(self, event: OrderEvent) -> bool {
        &&& self.holds(event)
        &&& zero_from(self._pad@, 0)
        &&& match event {
            OrderEvent::New(order) => self.origin_ts == order.origin_ts,
            OrderEvent::Fill { .. } => zero_from(self.payload@, 56),
            OrderEvent::PartialFill { .. } => zero_from(self.payload@, 64),
            OrderEvent::Cancel { .. } => zero_from(self.payload@, 40),
            OrderEvent::Reject { .. } => zero_from(self.payload@, 49),
        }
    }

    /// The byte that makes the record unreadable, if one does.
    pub open spec fn fault(self) -> Option<u8> {
        if self.tag > 4 {
            Some(self.tag)
        } else if self.tag == 0 && (self.payload@[36] > 1 || self.payload@[37] > 1
            || self.payload@[38] > 2) {
            Some(0)
        } else if self.tag == 4 && self.payload@[48] > 9 {
            Some(self.payload@[48])
        } else {
            None
        }
    }
}

/// A field keeps its place while other bytes change.
proof fn lemma_field_kept(before: Seq<u8>, after: Seq<u8>, at: int, n: int)
    requires
        wire::same_beside(before, after, at, n),
    ensures
        forall|a: int, f: Seq<u8>|
            #![trigger wire::field_at(after, a, f)]
            wire::field_at(before, a, f) && (a + f.len() <= at || at + n <= a) ==> wire::field_at(
                after,
                a,
                f,
            ),
{
    assert forall|a: int, f: Seq<u8>|
        #![trigger wire::field_at(after, a, f)]
        wire::field_at(before, a, f) && (a + f.len() <= at || at + n <= a) implies wire::field_at(
        after,
        a,
        f,
    ) by {
        assert(after.subrange(a, a + f.len()) =~= before.subrange(a, a + f.len()));
    }
}

/// Two values of one field are equal.
proof fn lemma_field_unique(s: Seq<u8>, at: int, f: Seq<u8>, g: Seq<u8>)
    requires
        wire::field_at(s, at, f),
        wire::field_at(s, at, g),
        f.len() == g.len(),
    ensures
        f == g,
{
}

proof fn lemma_hash_unique(s: Seq<u8>, at: int, a: IntentHash, b: IntentHash)
    requires
        wire::field_at(s, at, a.0@),
        wire::field_at(s, at, b.0@),
    ensures
        a == b,
{
    lemma_field_unique(s, at, a.0@, b.0@);
    assert(a.0 =~= b.0);
}

proof fn lemma_u64_unique(s: Seq<u8>, at: int, a: u64, b: u64)
    requires
        wire::field_at(s, at, wire::le64(a)),
        wire::field_at(s, at, wire::le64(b)),
    ensures
        a == b,
{
    lemma_field_unique(s, at, wire::le64(a), wire::le64(b));
    wire::lemma_le64_injective(a, b);
}

/// A payload holds at most one order.
proof fn lemma_order_unique(p: Seq<u8>, a: Order, b: Order)
    requires
        holds_order(p, a),
        holds_order(p, b),
    ensures
        a == b,
{
    lemma_u64_unique(p, 0, a.order_id.0, b.order_id.0);
    lemma_u64_unique(p, 8, a.price, b.price);
    lemma_u64_unique(p, 16, a.quantity, b.quantity);
    lemma_u64_unique(p, 24, a.origin_ts, b.origin_ts);
    lemma_field_unique(p, 32, wire::le32(a.instrument_id), wire::le32(b.instrument_id));
    wire::lemma_le32_injective(a.instrument_id, b.instrument_id);
    lemma_hash_unique(p, 40, a.intent_hash, b.intent_hash);
}

/// A record holds at most one event: reading is a function of the record.
pub proof fn law_record_holds_one_event(pod: PodOrderEvent, a: OrderEvent, b: OrderEvent)
    requires
        pod.holds(a),
        pod.holds(b),
    ensures
        a == b,
{
    let p = pod.payload@;
    match (a, b) {
        (OrderEvent::New(x), OrderEvent::New(y)) => {
            lemma_order_unique(p, x, y);
        },
        (
            OrderEvent::Fill { id, fill_qty, fill_price, intent_hash, .. },
            OrderEvent::Fill {
                id: id2,
                fill_qty: fill_qty2,
                fill_price: fill_price2,
                intent_hash: hash2,
                ..
            },
        ) => {
            lemma_u64_unique(p, 0, id, id2);
            lemma_u64_unique(p, 8, fill_qty, fill_qty2);
            lemma_u64_unique(p, 16, fill_price, fill_price2);
            lemma_hash_unique(p, 24, intent_hash, hash2);
        },
        (
            OrderEvent::PartialFill {
                id,
                fill_qty,
                fill_price,
                remaining_qty,
                intent_hash,
                ..
            },
            OrderEvent::PartialFill {
                id: id2,
                fill_qty: fill_qty2,
                fill_price: fill_price2,
                remaining_qty: remaining_qty2,
                intent_hash: hash2,
                ..
            },
        ) => {
            lemma_u64_unique(p, 0, id, id2);
            lemma_u64_unique(p, 8, fill_qty, fill_qty2);
            lemma_u64_unique(p, 16, fill_price, fill_price2);
            lemma_u64_unique(p, 24, remaining_qty, remaining_qty2);
            lemma_hash_unique(p, 32, intent_hash, hash2);
        },
        (
            OrderEvent::Cancel { id, intent_hash, .. },
            OrderEvent::Cancel { id: id2, intent_hash: hash2, .. },
        ) => {
            lemma_u64_unique(p, 0, id, id2);
            lemma_hash_unique(p, 8, intent_hash, hash2);
        },
        (
            OrderEvent::Reject { id, remaining_qty, intent_hash, .. },
            OrderEvent::Reject {
                id: id2,
                remaining_qty: remaining_qty2,
                intent_hash: hash2,
                ..
            },
        ) => {
            lemma_u64_unique(p, 0, id, id2);
            lemma_u64_unique(p, 40, remaining_qty, remaining_qty2);
            lemma_hash_unique(p, 8, intent_hash, hash2);
        },
        _ => {},
    }
}

/// Readers of records know every value in the event.
pub open spec fn readable(event: OrderEvent) -> bool {
    event matches OrderEvent::Reject { reason, .. } ==> reason.readable()
}

/// A record that holds an event is readable just if the event is.
pub proof fn law_held_event_is_readable(pod: PodOrderEvent, event: OrderEvent)
    requires
        pod.holds(event),
    ensures
        pod.fault() is None <==> readable(event),
{
}

/// At most one record is the one written for an event.
pub proof fn law_encoding_is_unique(a: PodOrderEvent, b: PodOrderEvent, event: OrderEvent)
    requires
        a.encodes(event),
        b.encodes(event),
    ensures
        a == b,
{
    assert(a._pad =~= b._pad);
    let p = a.payload@;
    let q = b.payload@;
    assert(p.subrange(0, 8) == q.subrange(0, 8));
    assert forall|i: int| 0 <= i < 72 implies p[i] == q[i] by {
        if i < 8 {
            assert(p.subrange(0, 8)[i] == q.subrange(0, 8)[i]);
        } else {
            match event {
                OrderEvent::New(_) => {
                    if i < 16 {
                        assert(p.subrange(8, 16)[i - 8] == q.subrange(8, 16)[i - 8]);
                    } else if i < 24 {
                        assert(p.subrange(16, 24)[i - 16] == q.subrange(16, 24)[i - 16]);
                    } else if i < 32 {
                        assert(p.subrange(24, 32)[i - 24] == q.subrange(24, 32)[i - 24]);
                    } else if i < 36 {
                        assert(p.subrange(32, 36)[i - 32] == q.subrange(32, 36)[i - 32]);
                    } else if i >= 40 {
                        assert(p.subrange(40, 72)[i - 40] == q.subrange(40, 72)[i - 40]);
                    }
                },
                OrderEvent::Fill { .. } => {
                    if i < 16 {
                        assert(p.subrange(8, 16)[i - 8] == q.subrange(8, 16)[i - 8]);
                    } else if i < 24 {
                        assert(p.subrange(16, 24)[i - 16] == q.subrange(16, 24)[i - 16]);
                    } else if i < 56 {
                        assert(p.subrange(24, 56)[i - 24] == q.subrange(24, 56)[i - 24]);
                    }
                },
                OrderEvent::PartialFill { .. } => {
                    if i < 16 {
                        assert(p.subrange(8, 16)[i - 8] == q.subrange(8, 16)[i - 8]);
                    } else if i < 24 {
                        assert(p.subrange(16, 24)[i - 16] == q.subrange(16, 24)[i - 16]);
                    } else if i < 32 {
                        assert(p.subrange(24, 32)[i - 24] == q.subrange(24, 32)[i - 24]);
                    } else if i < 64 {
                        assert(p.subrange(32, 64)[i - 32] == q.subrange(32, 64)[i - 32]);
                    }
                },
                OrderEvent::Cancel { .. } => {
                    if i < 40 {
                        assert(p.subrange(8, 40)[i - 8] == q.subrange(8, 40)[i - 8]);
                    }
                },
                OrderEvent::Reject { .. } => {
                    if i < 40 {
                        assert(p.subrange(8, 40)[i - 8] == q.subrange(8, 40)[i - 8]);
                    } else if i < 48 {
                        assert(p.subrange(40, 48)[i - 40] == q.subrange(40, 48)[i - 40]);
                    }
                },
            }
        }
    }
    assert(a.payload =~= b.payload);
}

/// Write `order` into a payload.
fn put_order(bytes: &mut [u8; 72], order: &Order)
    ensures
        holds_order(final(bytes)@, *order),
{
    put_u64(bytes, 0, order.order_id.0);
    let ghost s1 = bytes@;
    put_u64(bytes, 8, order.price);
    let ghost s2 = bytes@;
    put_u64(bytes, 16, order.quantity);
    let ghost s3 = bytes@;
    put_u64(bytes, 24, order.origin_ts);
    let ghost s4 = bytes@;
    put_u32(bytes, 32, order.instrument_id);
    let ghost s5 = bytes@;
    bytes[36] = order.side.to_byte();
    bytes[37] = order.order_type.to_byte();
    bytes[38] = order.tif.to_byte();
    bytes[39] = order._padding;
    let ghost s6 = bytes@;
    put_hash(bytes, 40, &order.intent_hash.0);
    proof {
        lemma_field_kept(s1, s2, 8, 8);
        lemma_field_kept(s2, s3, 16, 8);
        lemma_field_kept(s3, s4, 24, 8);
        lemma_field_kept(s4, s5, 32, 4);
        lemma_field_kept(s5, s6, 36, 4);
        lemma_field_kept(s6, bytes@, 40, 32);
    }
}

impl vstd::std_specs::convert::FromSpecImpl<OrderEvent> for PodOrderEvent {
    open spec fn obeys_from_spec() -> bool {
        true
    }

    open spec fn from_spec(event: OrderEvent) -> PodOrderEvent {
        choose|pod: PodOrderEvent| pod.encodes(event)
    }
}

impl From<OrderEvent> for PodOrderEvent {
    /// The record of `event`.
    fn from(event: OrderEvent) -> (pod: PodOrderEvent)
        ensures
            pod.encodes(event),
    {
        let mut payload: [u8; 72] = [0u8; 72];
        let ghost s0 = payload@;
        let (tag, origin_ts): (u8, u64) = match event {
            OrderEvent::New(order) => {
                put_order(&mut payload, &order);
                (0, order.origin_ts)
            },
            OrderEvent::Fill { id, fill_qty, fill_price, origin_ts, intent_hash } => {
                put_u64(&mut payload, 0, id);
                let ghost s1 = payload@;
                put_u64(&mut payload, 8, fill_qty);
                let ghost s2 = payload@;
                put_u64(&mut payload, 16, fill_price);
                let ghost s3 = payload@;
                put_hash(&mut payload, 24, &intent_hash.0);
                proof {
                    lemma_field_kept(s1, s2, 8, 8);
                    lemma_field_kept(s2, s3, 16, 8);
                    lemma_field_kept(s3, payload@, 24, 32);
                }
                (1, origin_ts)
            },
            OrderEvent::PartialFill {
                id,
                fill_qty,
                fill_price,
                remaining_qty,
                origin_ts,
                intent_hash,
            } => {
                put_u64(&mut payload, 0, id);
                let ghost s1 = payload@;
                put_u64(&mut payload, 8, fill_qty);
                let ghost s2 = payload@;
                put_u64(&mut payload, 16, fill_price);
                let ghost s3 = payload@;
                put_u64(&mut payload, 24, remaining_qty);
                let ghost s4 = payload@;
                put_hash(&mut payload, 32, &intent_hash.0);
                proof {
                    lemma_field_kept(s1, s2, 8, 8);
                    lemma_field_kept(s2, s3, 16, 8);
                    lemma_field_kept(s3, s4, 24, 8);
                    lemma_field_kept(s4, payload@, 32, 32);
                }
                (2, origin_ts)
            },
            OrderEvent::Cancel { id, origin_ts, intent_hash } => {
                put_u64(&mut payload, 0, id);
                let ghost s1 = payload@;
                put_hash(&mut payload, 8, &intent_hash.0);
                proof {
                    lemma_field_kept(s1, payload@, 8, 32);
                }
                (3, origin_ts)
            },
            OrderEvent::Reject { id, reason, remaining_qty, origin_ts, intent_hash } => {
                put_u64(&mut payload, 0, id);
                let ghost s1 = payload@;
                put_hash(&mut payload, 8, &intent_hash.0);
                let ghost s2 = payload@;
                put_u64(&mut payload, 40, remaining_qty);
                let ghost s3 = payload@;
                payload[48] = reason.to_byte();
                proof {
                    lemma_field_kept(s1, s2, 8, 32);
                    lemma_field_kept(s2, s3, 40, 8);
                    lemma_field_kept(s3, payload@, 48, 1);
                }
                (4, origin_ts)
            },
        };
        let pod = PodOrderEvent { tag, _pad: [0u8; 7], origin_ts, payload };
        proof {
            assert(pod.encodes(event));
            let chosen = choose|pod: PodOrderEvent| pod.encodes(event);
            law_encoding_is_unique(pod, chosen, event);
        }
        pod
    }
}

/// Read the order out of a payload; none if an enumeration byte is unknown.
fn get_order(bytes: &[u8; 72]) -> (r: Option<Order>)
    ensures
        match r {
            Some(order) => holds_order(bytes@, order),
            None => bytes@[36] > 1 || bytes@[37] > 1 || bytes@[38] > 2,
        },
{
    let side = match Side::from_byte(bytes[36]) {
        Some(side) => side,
        None => {
            return None;
        },
    };
    let order_type = match OrderType::from_byte(bytes[37]) {
        Some(order_type) => order_type,
        None => {
            return None;
        },
    };
    let tif = match TimeInForce::from_byte(bytes[38]) {
        Some(tif) => tif,
        None => {
            return None;
        },
    };
    Some(
        Order {
            order_id: OrderId(get_u64(bytes, 0)),
            price: get_u64(bytes, 8),
            quantity: get_u64(bytes, 16),
            origin_ts: get_u64(bytes, 24),
            instrument_id: get_u32(bytes, 32),
            side,
            order_type,
            tif,
            _padding: bytes[39],
            intent_hash: IntentHash(get_hash(bytes, 40)),
        },
    )
}

impl vstd::std_specs::convert::TryFromSpecImpl<PodOrderEvent> for OrderEvent {
    open spec fn obeys_try_from_spec() -> bool {
        true
    }

    open spec fn try_from_spec(pod: PodOrderEvent) -> Result<OrderEvent, InvalidTag> {
        match pod.fault() {
            Some(byte) => Err(InvalidTag(byte)),
            None => Ok(choose|event: OrderEvent| pod.holds(event)),
        }
    }
}

impl TryFrom<PodOrderEvent> for OrderEvent {
    type Error = InvalidTag;

    /// The event that the record holds; an unknown tag or enumeration byte is
    /// an error.
    fn try_from(pod: PodOrderEvent) -> (r: Result<OrderEvent, InvalidTag>)
        ensures
            match r {
                Ok(event) => pod.fault() is None && pod.holds(event),
                Err(e) => pod.fault() == Some(e.0),
            },
    {
        let p = pod.payload;
        let event = match pod.tag {
            0 => match get_order(&p) {
                Some(order) => OrderEvent::New(order),
                None => {
                    return Err(InvalidTag(0));
                },
            },
            1 => OrderEvent::Fill {
                id: get_u64(&p, 0),
                fill_qty: get_u64(&p, 8),
                fill_price: get_u64(&p, 16),
                origin_ts: pod.origin_ts,
                intent_hash: IntentHash(get_hash(&p, 24)),
            },
            2 => OrderEvent::PartialFill {
                id: get_u64(&p, 0),
                fill_qty: get_u64(&p, 8),
                fill_price: get_u64(&p, 16),
                remaining_qty: get_u64(&p, 24),
                origin_ts: pod.origin_ts,
                intent_hash: IntentHash(get_hash(&p, 32)),
            },
            3 => OrderEvent::Cancel {
                id: get_u64(&p, 0),
                origin_ts: pod.origin_ts,
                intent_hash: IntentHash(get_hash(&p, 8)),
            },
            4 => match RejectReason::from_byte(p[48]) {
                Some(reason) => OrderEvent::Reject {
                    id: get_u64(&p, 0),
                    reason,
                    remaining_qty: get_u64(&p, 40),
                    origin_ts: pod.origin_ts,
                    intent_hash: IntentHash(get_hash(&p, 8)),
                },
                None => {
                    return Err(InvalidTag(p[48]));
                },
            },
            _ => {
                return Err(InvalidTag(pod.tag));
            },
        };
        proof {
            assert(pod.holds(event));
            let chosen = choose|event: OrderEvent| pod.holds(event);
            law_record_holds_one_event(pod, event, chosen);
        }
        Ok(event)
    }
}

/// Reading back the record written for a readable event gives the event.
pub proof fn law_event_round_trip(pod: PodOrderEvent, event: OrderEvent)
    requires
        pod.encodes(event),
        readable(event),
    ensures
        <OrderEvent as vstd::std_specs::convert::TryFromSpec<PodOrderEvent>>::try_from_spec(pod)
            == Ok::<OrderEvent, InvalidTag>(event),
{
    law_held_event_is_readable(pod, event);
    let chosen = choose|e: OrderEvent| pod.holds(e);
    law_record_holds_one_event(pod, event, chosen);
}

/// The record written for any other event is refused, by the byte of its reason.
pub proof fn law_unreadable_event_is_refused(pod: PodOrderEvent, event: OrderEvent)
    requires
        pod.encodes(event),
        !readable(event),
    ensures
        <OrderEvent as vstd::std_specs::convert::TryFromSpec<PodOrderEvent>>::try_from_spec(pod)
            == Err::<OrderEvent, InvalidTag>(InvalidTag(10)),
{
}

/// Every field has its place in a record, whether it is written or read: the tag tells
/// the kind of event, the header carries the timestamp, numbers stand lowest byte
/// first, and enumerations have fixed numbers.
pub proof fn law_fields_lie_at_fixed_places(pod: PodOrderEvent, event: OrderEvent)
    requires
        pod.holds(event),
    ensures
        ({
            let p = pod.payload@;
            match event {
                OrderEvent::New(o) => {
                    &&& pod.tag == 0
                    &&& pod.encodes(event) ==> pod.origin_ts == o.origin_ts
                    &&& wire::number_at(p, 0, 8) == o.order_id.0
                    &&& wire::number_at(p, 8, 8) == o.price
                    &&& wire::number_at(p, 16, 8) == o.quantity
                    &&& wire::number_at(p, 24, 8) == o.origin_ts
                    &&& wire::number_at(p, 32, 4) == o.instrument_id
                    &&& p[36] == (if o.side == Side::Ask { 1int } else { 0 })
                    &&& p[37] == (if o.order_type == OrderType::Market { 1int } else { 0 })
                    &&& o.tif == TimeInForce::GTC ==> p[38] == 0
                    &&& o.tif == TimeInForce::IOC ==> p[38] == 1
                    &&& o.tif == TimeInForce::FOK ==> p[38] == 2
                    &&& p[39] == o._padding
                    &&& p.subrange(40, 72) == o.intent_hash.0@
                },
                OrderEvent::Fill { id, fill_qty, fill_price, origin_ts, intent_hash } => {
                    &&& pod.tag == 1 && pod.origin_ts == origin_ts
                    &&& wire::number_at(p, 0, 8) == id
                    &&& wire::number_at(p, 8, 8) == fill_qty
                    &&& wire::number_at(p, 16, 8) == fill_price
                    &&& p.subrange(24, 56) == intent_hash.0@
                },
                OrderEvent::PartialFill {
                    id,
                    fill_qty,
                    fill_price,
                    remaining_qty,
                    origin_ts,
                    intent_hash,
                } => {
                    &&& pod.tag == 2 && pod.origin_ts == origin_ts
                    &&& wire::number_at(p, 0, 8) == id
                    &&& wire::number_at(p, 8, 8) == fill_qty
                    &&& wire::number_at(p, 16, 8) == fill_price
                    &&& wire::number_at(p, 24, 8) == remaining_qty
                    &&& p.subrange(32, 64) == intent_hash.0@
                },
                OrderEvent::Cancel { id, origin_ts, intent_hash } => {
                    &&& pod.tag == 3 && pod.origin_ts == origin_ts
                    &&& wire::number_at(p, 0, 8) == id
                    &&& p.subrange(8, 40) == intent_hash.0@
                },
                OrderEvent::Reject { id, reason, remaining_qty, origin_ts, intent_hash } => {
                    &&& pod.tag == 4 && pod.origin_ts == origin_ts
                    &&& wire::number_at(p, 0, 8) == id
                    &&& p.subrange(8, 40) == intent_hash.0@
                    &&& wire::number_at(p, 40, 8) == remaining_qty
                    &&& reason == RejectReason::InsufficientBalance <==> p[48] == 0
                    &&& reason == RejectReason::InsufficientMargin <==> p[48] == 1
                    &&& reason == RejectReason::PositionLimitExceeded <==> p[48] == 2
                    &&& reason == RejectReason::RateLimitExceeded <==> p[48] == 3
                    &&& reason == RejectReason::InvalidPrice <==> p[48] == 4
                    &&& reason == RejectReason::InvalidQuantity <==> p[48] == 5
                    &&& reason == RejectReason::UnknownInstrument <==> p[48] == 6
                    &&& reason == RejectReason::UnknownOrder <==> p[48] == 7
                    &&& reason == RejectReason::SystemAtCapacity <==> p[48] == 8
                    &&& reason == RejectReason::InsufficientLiquidity <==> p[48] == 9
                },
            }
        }),
{
    let p = pod.payload@;
    match event {
        OrderEvent::New(o) => {
            wire::law_u64_reads_lowest_byte_first(p, 0, o.order_id.0);
            wire::law_u64_reads_lowest_byte_first(p, 8, o.price);
            wire::law_u64_reads_lowest_byte_first(p, 16, o.quantity);
            wire::law_u64_reads_lowest_byte_first(p, 24, o.origin_ts);
            wire::law_u32_reads_lowest_byte_first(p, 32, o.instrument_id);
        },
        OrderEvent::Fill { id, fill_qty, fill_price, .. } => {
            wire::law_u64_reads_lowest_byte_first(p, 0, id);
            wire::law_u64_reads_lowest_byte_first(p, 8, fill_qty);
            wire::law_u64_reads_lowest_byte_first(p, 16, fill_price);
        },
        OrderEvent::PartialFill { id, fill_qty, fill_price, remaining_qty, .. } => {
            wire::law_u64_reads_lowest_byte_first(p, 0, id);
            wire::law_u64_reads_lowest_byte_first(p, 8, fill_qty);
            wire::law_u64_reads_lowest_byte_first(p, 16, fill_price);
            wire::law_u64_reads_lowest_byte_first(p, 24, remaining_qty);
        },
        OrderEvent::Cancel { id, .. } => {
            wire::law_u64_reads_lowest_byte_first(p, 0, id);
        },
        OrderEvent::Reject { id, remaining_qty, .. } => {
            wire::law_u64_reads_lowest_byte_first(p, 0, id);
            wire::law_u64_reads_lowest_byte_first(p, 40, remaining_qty);
        },
    }
}

/// The bytes that the fields of an event leave over are zero.
pub proof fn law_unused_bytes_are_zero(pod: PodOrderEvent, event: OrderEvent)
    requires
        pod.encodes(event),
    ensures
        forall|i: int| 0 <= i < 7 ==> #[trigger] pod._pad@[i] == 0,
        forall|i: int|
            #![trigger pod.payload@[i]]
            0 <= i < 72 ==> {
                &&& event is Fill && i >= 56 ==> pod.payload@[i] == 0
                &&& event is PartialFill && i >= 64 ==> pod.payload@[i] == 0
                &&& event is Cancel && i >= 40 ==> pod.payload@[i] == 0
                &&& event is Reject && i >= 49 ==> pod.payload@[i] == 0
            },
{
}

/// A record is refused just for a tag above 4, for an order with an unknown side,
/// type or time in force, and for a refusal with an unknown reason. The error names
/// the tag, 0, or the reason's byte.
pub proof fn law_unreadable_records_are_named(pod: PodOrderEvent)
    ensures
        ({
            let r = <OrderEvent as vstd::std_specs::convert::TryFromSpec<
                PodOrderEvent,
            >>::try_from_spec(pod);
            let p = pod.payload@;
            let bad_order = pod.tag == 0 && (p[36] >= 2 || p[37] >= 2 || p[38] >= 3);
            let bad_reason = pod.tag == 4 && p[48] >= 10;
            &&& r is Err <==> pod.tag >= 5 || bad_order || bad_reason
            &&& pod.tag >= 5 ==> r == Err::<OrderEvent, InvalidTag>(InvalidTag(pod.tag))
            &&& bad_order ==> r == Err::<OrderEvent, InvalidTag>(InvalidTag(0))
            &&& bad_reason ==> r == Err::<OrderEvent, InvalidTag>(InvalidTag(p[48]))
        }),
{
}

} // verus!
