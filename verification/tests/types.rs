use dex_core::types::{
    IntentHash, InvalidTag, L2Update, Order, OrderEvent, OrderId, OrderType, PodOrderEvent, PodPosition,
    Position, RejectReason, RequestType, Side, TimeInForce, TimingDelta, PRICE_SCALE,
};

// helper to build fully populated order
fn sample_order() -> Order {
    Order {
        order_id: OrderId(0xDEAD_BEEF_CAFE_BABE),
        price: 12345_00000000,
        quantity: 1_1000,
        origin_ts: 999_999_999,
        instrument_id: 42,
        side: Side::Ask,
        order_type: OrderType::Market,
        tif: TimeInForce::IOC,
        _padding: 0,
        intent_hash: IntentHash::zeroed(),
    }
}

#[test]
fn fill_round_trip() {
    let original = OrderEvent::Fill {
        id: 42, fill_qty: 100, fill_price: 50_000, origin_ts: 7_777_777,
        intent_hash: IntentHash([0xAB; 32]),
    };
    let pod: PodOrderEvent = original.clone().into();
    assert_eq!(pod.tag, 1, "Fill tag must be 1");
    assert_eq!(pod.origin_ts, 7_777_777, "Fill must carry origin_ts in the header");
    let back: OrderEvent = pod.try_into().expect("Failed to convert back to OrderEvent");
    assert_eq!(original, back);
}

#[test]
fn new_round_trip_preserves_all_enum_fields() {
    // All Order fields (including origin_ts) must survive the trip through the payload.
    let original = OrderEvent::New(sample_order());
    let pod: PodOrderEvent = original.clone().into();
    assert_eq!(pod.tag, 0);
    assert_eq!(pod.origin_ts, 999_999_999, "New must mirror order.origin_ts in header");
    let back: OrderEvent = pod.try_into().unwrap();
    assert_eq!(original, back);
}

#[test]
fn cancel_zeros_unused_payload_bytes() {
    // Cancel uses payload[0..40] (id + intent_hash); bytes 40..72 must be zero,
    // not stack garbage. Use a zero intent_hash so the whole tail must be zero.
    let pod: PodOrderEvent = OrderEvent::Cancel {
        id: 7, origin_ts: 1, intent_hash: IntentHash([0u8; 32]),
    }.into();
    for (i, b) in pod.payload[40..].iter().enumerate() {
        assert_eq!(*b, 0, "byte {} of unused payload was {}, not 0", 40 + i, b);
    }
}

#[test]
fn unknown_tag_returns_err() {
    let pod = PodOrderEvent { tag: 99, _pad: [0; 7], origin_ts: 0, payload: [0; 72] };
    match OrderEvent::try_from(pod) {
        Err(InvalidTag(99)) => (),
        other => panic!("expected InvalidTag(99), got {:?}", other),
    }
}

#[test]
fn pod_order_event_size_is_88_bytes() {
    // Layout: tag(1) + _pad(7) + origin_ts(8) + payload(72) = 88 B, align 8.
    assert_eq!(core::mem::size_of::<PodOrderEvent>(), 88);
    assert_eq!(core::mem::align_of::<PodOrderEvent>(), 8);
}

#[test]
fn intent_hash_round_trips_for_every_variant() {
    // Non-zero hash so a serialize/deserialize bug that drops it on the floor
    // cannot pass by accident.
    let hash = IntentHash([0x5A; 32]);
    let cases = [
        OrderEvent::Fill { id: 1, fill_qty: 2, fill_price: 3, origin_ts: 4, intent_hash: hash },
        OrderEvent::PartialFill { id: 1, fill_qty: 2, fill_price: 3, remaining_qty: 4, origin_ts: 5, intent_hash: hash },
        OrderEvent::Cancel { id: 1, origin_ts: 2, intent_hash: hash },
        OrderEvent::Reject { id: 1, reason: RejectReason::InvalidPrice, remaining_qty: 7, origin_ts: 2, intent_hash: hash },
    ];
    for original in cases {
        let pod: PodOrderEvent = original.clone().into();
        let back: OrderEvent = pod.try_into().unwrap();
        assert_eq!(back, original, "intent_hash round-trip failed for {:?}", original);
    }
}

#[test]
fn fill_origin_ts_propagates_round_trip() {
    // origin_ts must survive a Fill round-trip independent of payload contents.
    let original = OrderEvent::Fill {
        id: 1, fill_qty: 1, fill_price: 1, origin_ts: 0xCAFE_F00D_BABE_BEEF,
        intent_hash: IntentHash([0u8; 32]),
    };
    let pod: PodOrderEvent = original.clone().into();
    let back: OrderEvent = pod.try_into().unwrap();
    assert_eq!(back, original);
}

fn payload_with(byte_at: usize, byte: u8) -> [u8; 72] {
    let mut payload = [0u8; 72];
    payload[byte_at] = byte;
    payload
}

#[test]
fn new_order_layout_is_exact() {
    let order = Order {
        order_id: OrderId(0x0102_0304_0506_0708),
        price: 5 * PRICE_SCALE,
        quantity: 3,
        origin_ts: 4,
        instrument_id: 0x0A0B_0C0D,
        side: Side::Ask,
        order_type: OrderType::Market,
        tif: TimeInForce::FOK,
        _padding: 9,
        intent_hash: IntentHash([0x11; 32]),
    };
    let pod: PodOrderEvent = OrderEvent::New(order).into();
    assert_eq!(pod._pad, [0; 7]);
    assert_eq!(pod.payload[0..8], [8, 7, 6, 5, 4, 3, 2, 1]);
    assert_eq!(pod.payload[8..16], (5 * PRICE_SCALE).to_le_bytes());
    assert_eq!(pod.payload[16..24], [3, 0, 0, 0, 0, 0, 0, 0]);
    assert_eq!(pod.payload[24..32], [4, 0, 0, 0, 0, 0, 0, 0]);
    assert_eq!(pod.payload[32..36], [0x0D, 0x0C, 0x0B, 0x0A]);
    assert_eq!(pod.payload[36..40], [1, 1, 2, 9]);
    assert_eq!(pod.payload[40..72], [0x11; 32]);
}

#[test]
fn reject_layout_is_exact() {
    let pod: PodOrderEvent = OrderEvent::Reject {
        id: 6,
        reason: RejectReason::DuplicateIntent,
        remaining_qty: 258,
        origin_ts: 77,
        intent_hash: IntentHash([2; 32]),
    }
    .into();
    assert_eq!((pod.tag, pod.origin_ts), (4, 77));
    assert_eq!(pod.payload[0..8], [6, 0, 0, 0, 0, 0, 0, 0]);
    assert_eq!(pod.payload[8..40], [2; 32]);
    assert_eq!(pod.payload[40..48], [2, 1, 0, 0, 0, 0, 0, 0]);
    assert_eq!(pod.payload[48], 10);
    assert_eq!(pod.payload[49..], [0; 23]);
}

#[test]
fn every_reject_reason_has_its_byte() {
    let reasons = [
        RejectReason::InsufficientBalance,
        RejectReason::InsufficientMargin,
        RejectReason::PositionLimitExceeded,
        RejectReason::RateLimitExceeded,
        RejectReason::InvalidPrice,
        RejectReason::InvalidQuantity,
        RejectReason::UnknownInstrument,
        RejectReason::UnknownOrder,
        RejectReason::SystemAtCapacity,
        RejectReason::InsufficientLiquidity,
    ];
    for (byte, reason) in reasons.into_iter().enumerate() {
        let pod = PodOrderEvent { tag: 4, _pad: [0; 7], origin_ts: 1, payload: payload_with(48, byte as u8) };
        assert_eq!(
            OrderEvent::try_from(pod),
            Ok(OrderEvent::Reject {
                id: 0,
                reason,
                remaining_qty: 0,
                origin_ts: 1,
                intent_hash: IntentHash([0; 32]),
            })
        );
    }
}

#[test]
fn duplicate_intent_is_written_but_not_read() {
    let pod: PodOrderEvent = OrderEvent::Reject {
        id: 0,
        reason: RejectReason::DuplicateIntent,
        remaining_qty: 1,
        origin_ts: 2,
        intent_hash: IntentHash([3; 32]),
    }
    .into();
    assert_eq!(pod.payload[48], 10);
    assert_eq!(OrderEvent::try_from(pod), Err(InvalidTag(10)));
}

#[test]
fn unknown_reject_reason_is_reported_by_its_byte() {
    let pod = PodOrderEvent { tag: 4, _pad: [0; 7], origin_ts: 0, payload: payload_with(48, 200) };
    assert_eq!(OrderEvent::try_from(pod), Err(InvalidTag(200)));
}

#[test]
fn new_order_with_unknown_enum_byte_is_refused() {
    for at in [36, 37, 38] {
        let pod = PodOrderEvent { tag: 0, _pad: [0; 7], origin_ts: 0, payload: payload_with(at, 7) };
        assert_eq!(OrderEvent::try_from(pod), Err(InvalidTag(0)));
    }
}

#[test]
fn padding_does_not_matter_for_reading() {
    let mut pod: PodOrderEvent =
        OrderEvent::Cancel { id: 3, origin_ts: 4, intent_hash: IntentHash([5; 32]) }.into();
    pod._pad = [9; 7];
    pod.payload[71] = 1;
    assert_eq!(
        OrderEvent::try_from(pod),
        Ok(OrderEvent::Cancel { id: 3, origin_ts: 4, intent_hash: IntentHash([5; 32]) })
    );
}

#[test]
fn positions_round_trip() {
    let cases = [
        (Position::Flat, 0),
        (Position::Long { qty: 5, avg_price: 6 }, 1),
        (Position::Short { qty: u64::MAX, avg_price: 1 }, 2),
    ];
    for (position, tag) in cases {
        let pod = PodPosition::from(position);
        assert_eq!(pod.tag, tag);
        assert_eq!(pod._pad, [0; 7]);
        assert_eq!(Position::try_from(pod), Ok(position));
    }
    let bad = PodPosition { tag: 3, _pad: [0; 7], qty: 0, avg_price: 0 };
    assert_eq!(Position::try_from(bad), Err(InvalidTag(3)));
}

#[test]
fn record_sizes() {
    assert_eq!(core::mem::size_of::<Order>(), 72);
    assert_eq!(core::mem::size_of::<L2Update>(), 32);
    assert_eq!(core::mem::size_of::<TimingDelta>(), 24);
    assert_eq!(core::mem::size_of::<PodPosition>(), 24);
    assert_eq!(core::mem::size_of::<Side>(), 1);
    assert_eq!(core::mem::size_of::<OrderType>(), 1);
    assert_eq!(core::mem::size_of::<TimeInForce>(), 1);
    assert_eq!(core::mem::size_of::<RequestType>(), 1);
    assert_eq!(core::mem::size_of::<RejectReason>(), 1);
    assert_eq!(core::mem::align_of::<Order>(), 8);
    assert_eq!(core::mem::align_of::<L2Update>(), 8);
    assert_eq!(core::mem::align_of::<TimingDelta>(), 8);
    assert_eq!(core::mem::align_of::<PodPosition>(), 8);
}

#[test]
fn zeroed_intent_hash_is_all_zero() {
    assert_eq!(IntentHash::zeroed(), IntentHash([0; 32]));
}
