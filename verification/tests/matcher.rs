use dex_core::benchkit::Lcg;
use dex_core::matcher::{AddInstrumentError, Engine, EventSink};
use dex_core::types::{
    IntentHash, Order, OrderEvent, OrderRequest, OrderType, RejectReason, RequestType, Side, TimeInForce,
};

const INSTR: u32 = 1;

/// Build an OrderRequest. `hash_byte` keeps intent_hashes distinct so the
/// book's dedup index doesn't reject our resting makers.
fn req(
    side: Side,
    price: u64,
    qty: u64,
    tif: TimeInForce,
    request_type: RequestType,
    hash_byte: u8,
) -> OrderRequest {
    let mut h = [0u8; 32];
    h[0] = hash_byte;
    OrderRequest {
        price,
        quantity: qty,
        origin_ts: 1_000,
        instrument_id: INSTR,
        side,
        order_type: OrderType::Limit,
        tif,
        request_type,
        intent_hash: IntentHash(h),
    }
}

fn engine_with_book() -> Engine {
    let mut e = Engine::new();
    e.add_instrument(INSTR, 64).unwrap();
    e
}

/// Rest a GTC maker on the book and assert it actually rested.
fn rest_maker(e: &mut Engine, side: Side, price: u64, qty: u64, hash_byte: u8) {
    let mut out = Vec::new();
    e.process(&req(side, price, qty, TimeInForce::GTC, RequestType::New, hash_byte), &mut out);
    assert!(matches!(out.as_slice(), [OrderEvent::New(_)]), "maker should rest, got {out:?}");
}

/// Process one request and return only the events it produced.
fn run(e: &mut Engine, r: &OrderRequest) -> Vec<OrderEvent> {
    let mut out = Vec::new();
    e.process(r, &mut out);
    out
}

// --- assertion helpers -------------------------------------------------

/// Number of fill events (taker + maker, Fill or PartialFill).
fn fill_count(ev: &[OrderEvent]) -> usize {
    ev.iter()
        .filter(|e| matches!(e, OrderEvent::Fill { .. } | OrderEvent::PartialFill { .. }))
        .count()
}

/// (reason, remaining_qty) of the single Reject, if any.
fn reject(ev: &[OrderEvent]) -> Option<(RejectReason, u64)> {
    ev.iter().find_map(|e| match e {
        OrderEvent::Reject { reason, remaining_qty, .. } => Some((*reason, *remaining_qty)),
        _ => None,
    })
}

fn new_event(ev: &[OrderEvent]) -> Option<Order> {
    ev.iter().find_map(|e| match e {
        OrderEvent::New(o) => Some(*o),
        _ => None,
    })
}

// --- GTC ---------------------------------------------------------------

#[test]
fn gtc_with_no_cross_rests_whole_order() {
    let mut e = engine_with_book();
    let out = run(&mut e, &req(Side::Bid, 100, 10, TimeInForce::GTC, RequestType::New, 1));

    assert_eq!(fill_count(&out), 0);
    assert!(reject(&out).is_none());
    let rested = new_event(&out).expect("should emit New");
    assert_eq!((rested.price, rested.quantity), (100, 10));

    let (price, level) = e.book(INSTR).unwrap().best_bid().unwrap();
    assert_eq!((price, level.total_qty()), (100, 10));
}

#[test]
fn gtc_partial_cross_rests_remainder() {
    let mut e = engine_with_book();
    rest_maker(&mut e, Side::Ask, 100, 4, 1);

    let out = run(&mut e, &req(Side::Bid, 100, 10, TimeInForce::GTC, RequestType::New, 2));

    // 4 crossed (one taker + one maker event); remainder 6 rests.
    assert_eq!(fill_count(&out), 2);
    assert!(reject(&out).is_none());
    assert_eq!(new_event(&out).unwrap().quantity, 6);

    let book = e.book(INSTR).unwrap();
    assert!(book.best_ask().is_none(), "ask fully consumed");
    assert_eq!(book.best_bid().unwrap().1.total_qty(), 6, "remainder rests as bid");
}

// --- IOC ---------------------------------------------------------------

#[test]
fn ioc_partial_fill_rejects_only_unfilled_remainder() {
    let mut e = engine_with_book();
    rest_maker(&mut e, Side::Ask, 100, 4, 1);

    let out = run(&mut e, &req(Side::Bid, 100, 10, TimeInForce::IOC, RequestType::New, 2));

    assert_eq!(fill_count(&out), 2, "4 units crossed");
    assert_eq!(
        reject(&out),
        Some((RejectReason::InsufficientLiquidity, 6)),
        "reject must report the 6 unfilled units, not the original 10"
    );
    assert!(e.book(INSTR).unwrap().best_bid().is_none(), "IOC never rests");
}

#[test]
fn ioc_with_no_liquidity_rejects_full_quantity_no_fills() {
    let mut e = engine_with_book();
    let out = run(&mut e, &req(Side::Bid, 100, 10, TimeInForce::IOC, RequestType::New, 1));

    assert_eq!(fill_count(&out), 0);
    assert_eq!(reject(&out), Some((RejectReason::InsufficientLiquidity, 10)));
    assert!(e.book(INSTR).unwrap().best_bid().is_none());
}

// --- FOK ---------------------------------------------------------------

#[test]
fn fok_insufficient_liquidity_rejects_with_zero_fills() {
    let mut e = engine_with_book();
    rest_maker(&mut e, Side::Ask, 100, 4, 1); // only 4 available, need 10

    let out = run(&mut e, &req(Side::Bid, 100, 10, TimeInForce::FOK, RequestType::New, 2));

    assert_eq!(fill_count(&out), 0, "FOK is all-or-nothing: no partial fills");
    assert_eq!(reject(&out), Some((RejectReason::InsufficientLiquidity, 10)));
    assert_eq!(
        e.book(INSTR).unwrap().best_ask().unwrap().1.total_qty(),
        4,
        "resting maker must be untouched"
    );
}

#[test]
fn fok_sufficient_liquidity_fills_completely() {
    let mut e = engine_with_book();
    rest_maker(&mut e, Side::Ask, 100, 12, 1); // more than enough

    let out = run(&mut e, &req(Side::Bid, 100, 10, TimeInForce::FOK, RequestType::New, 2));

    assert_eq!(fill_count(&out), 2, "taker fully filled + maker partially");
    assert!(reject(&out).is_none());
    assert_eq!(
        e.book(INSTR).unwrap().best_ask().unwrap().1.total_qty(),
        2,
        "12 resting - 10 consumed = 2 remain"
    );
}

#[test]
fn fok_pre_check_respects_price_limit() {
    // Liquidity exists, but only above the taker's limit -> FOK must reject.
    let mut e = engine_with_book();
    rest_maker(&mut e, Side::Ask, 110, 50, 1);

    let out = run(&mut e, &req(Side::Bid, 100, 10, TimeInForce::FOK, RequestType::New, 2));

    assert_eq!(fill_count(&out), 0);
    assert_eq!(reject(&out), Some((RejectReason::InsufficientLiquidity, 10)));
    assert_eq!(e.book(INSTR).unwrap().best_ask().unwrap().1.total_qty(), 50);
}

// --- price-time priority ----------------------------------------------

#[test]
fn trade_executes_at_resting_maker_price() {
    // Aggressive taker crosses; the trade prints at the maker's resting
    // price (price improvement for the taker), not the taker's limit.
    let mut e = engine_with_book();
    rest_maker(&mut e, Side::Ask, 100, 10, 1);

    let out = run(&mut e, &req(Side::Bid, 105, 10, TimeInForce::GTC, RequestType::New, 2));

    assert_eq!(fill_count(&out), 2);
    for ev in &out {
        match ev {
            OrderEvent::Fill { fill_price, .. }
            | OrderEvent::PartialFill { fill_price, .. } => assert_eq!(*fill_price, 100),
            _ => {}
        }
    }
}

// --- validation ---------------------------------------------------------------

#[test]
fn instruments_are_registered_once() {
    let mut e = Engine::new();
    assert!(e.book(INSTR).is_none());
    assert_eq!(e.add_instrument(INSTR, 0), Err(AddInstrumentError::InvalidCapacity));
    assert_eq!(e.add_instrument(INSTR, u32::MAX), Err(AddInstrumentError::InvalidCapacity));
    assert_eq!(e.add_instrument(INSTR, 4), Ok(()));
    assert_eq!(e.add_instrument(INSTR, 4), Err(AddInstrumentError::AlreadyRegistered));
    assert_eq!(e.add_instrument(INSTR, 0), Err(AddInstrumentError::InvalidCapacity));
    assert_eq!(e.book(INSTR).unwrap().instrument_id(), INSTR);
}

#[test]
fn invalid_requests_are_rejected_in_order() {
    let mut e = engine_with_book();
    let mut r = req(Side::Bid, 0, 0, TimeInForce::GTC, RequestType::New, 1);
    assert_eq!(reject(&run(&mut e, &r)), Some((RejectReason::InvalidQuantity, 0)));
    r.quantity = 5;
    assert_eq!(reject(&run(&mut e, &r)), Some((RejectReason::InvalidPrice, 5)));
    r.instrument_id = 9;
    assert_eq!(reject(&run(&mut e, &r)), Some((RejectReason::UnknownInstrument, 5)));
    r.request_type = RequestType::Cancel;
    assert_eq!(reject(&run(&mut e, &r)), Some((RejectReason::UnknownInstrument, 0)));
    r.instrument_id = INSTR;
    assert_eq!(reject(&run(&mut e, &r)), Some((RejectReason::UnknownOrder, 0)));
}

#[test]
fn duplicate_and_full_book_rejects() {
    let mut e = Engine::new();
    e.add_instrument(INSTR, 1).unwrap();
    rest_maker(&mut e, Side::Bid, 100, 4, 1);
    let again = req(Side::Bid, 101, 5, TimeInForce::GTC, RequestType::New, 1);
    assert_eq!(reject(&run(&mut e, &again)), Some((RejectReason::DuplicateIntent, 5)));
    let more = req(Side::Bid, 101, 6, TimeInForce::GTC, RequestType::New, 2);
    assert_eq!(reject(&run(&mut e, &more)), Some((RejectReason::SystemAtCapacity, 6)));
}

// --- whole event streams --------------------------------------------------------

fn hash(byte: u8) -> IntentHash {
    let mut h = [0u8; 32];
    h[0] = byte;
    IntentHash(h)
}

#[test]
fn taker_sweeps_levels_best_first() {
    let mut e = engine_with_book();
    rest_maker(&mut e, Side::Ask, 102, 5, 1); // id 0
    rest_maker(&mut e, Side::Ask, 100, 3, 2); // id 1
    rest_maker(&mut e, Side::Ask, 100, 2, 3); // id 2
    rest_maker(&mut e, Side::Ask, 104, 9, 4); // id 3

    let out = run(&mut e, &req(Side::Bid, 103, 7, TimeInForce::GTC, RequestType::New, 9));
    let taker = hash(9);
    assert_eq!(
        out,
        vec![
            OrderEvent::PartialFill { id: 4, fill_qty: 3, fill_price: 100, remaining_qty: 4, origin_ts: 1_000, intent_hash: taker },
            OrderEvent::Fill { id: 1, fill_qty: 3, fill_price: 100, origin_ts: 1_000, intent_hash: hash(2) },
            OrderEvent::PartialFill { id: 4, fill_qty: 2, fill_price: 100, remaining_qty: 2, origin_ts: 1_000, intent_hash: taker },
            OrderEvent::Fill { id: 2, fill_qty: 2, fill_price: 100, origin_ts: 1_000, intent_hash: hash(3) },
            OrderEvent::Fill { id: 4, fill_qty: 2, fill_price: 102, origin_ts: 1_000, intent_hash: taker },
            OrderEvent::PartialFill { id: 0, fill_qty: 2, fill_price: 102, remaining_qty: 3, origin_ts: 1_000, intent_hash: hash(1) },
        ]
    );
    let book = e.book(INSTR).unwrap();
    assert_eq!(book.ask_depth(10), vec![(102, 3), (104, 9)]);
    assert!(book.is_empty(Side::Bid));
    assert!(!book.is_crossed());
}

#[test]
fn trades_conserve_quantity() {
    let mut e = engine_with_book();
    for k in 0..6u8 {
        rest_maker(&mut e, Side::Bid, 100 + (k as u64 % 3), 2 + k as u64, k);
    }
    let before: u64 = e.book(INSTR).unwrap().bid_depth(10).iter().map(|l| l.1).sum();
    let out = run(&mut e, &req(Side::Ask, 101, 17, TimeInForce::IOC, RequestType::New, 99));
    let filled: u64 = out
        .iter()
        .filter_map(|ev| match ev {
            OrderEvent::Fill { fill_qty, .. } | OrderEvent::PartialFill { fill_qty, .. } => Some(*fill_qty),
            _ => None,
        })
        .sum();
    let after: u64 = e.book(INSTR).unwrap().bid_depth(10).iter().map(|l| l.1).sum();
    let left = reject(&out).map(|(_, qty)| qty).unwrap_or(0);
    assert_eq!(filled, 2 * (before - after));
    assert_eq!(17 - left, before - after);
}

#[test]
fn order_ids_ascend_over_instruments() {
    let mut e = engine_with_book();
    e.add_instrument(2, 8).unwrap();
    let mut ids = Vec::new();
    for k in 0..4u8 {
        let mut r = req(Side::Bid, 100, 1, TimeInForce::GTC, RequestType::New, k);
        r.instrument_id = 1 + (k as u32 % 2);
        ids.push(new_event(&run(&mut e, &r)).unwrap().order_id.0);
    }
    assert_eq!(ids, vec![0, 1, 2, 3]);
    // a refused request burns no id
    run(&mut e, &req(Side::Bid, 0, 1, TimeInForce::GTC, RequestType::New, 50));
    let last = run(&mut e, &req(Side::Bid, 90, 1, TimeInForce::GTC, RequestType::New, 51));
    assert_eq!(new_event(&last).unwrap().order_id.0, 4);
}

#[test]
fn order_ids_number_the_accepted_requests() {
    let mut e = engine_with_book();
    let mut accepted = 0;
    for i in 0..40u8 {
        // every fourth request is malformed, every fifth a cancel of nothing
        let qty = if i % 4 == 3 { 0 } else { 1 + i as u64 % 3 };
        let kind = if i % 5 == 4 { RequestType::Cancel } else { RequestType::New };
        let tif = if i % 3 == 0 { TimeInForce::IOC } else { TimeInForce::GTC };
        let side = if i % 2 == 0 { Side::Bid } else { Side::Ask };
        let ev = run(&mut e, &req(side, 100, qty, tif, kind, i + 1));
        if kind == RequestType::Cancel || qty == 0 {
            assert_eq!(fill_count(&ev), 0);
            assert!(new_event(&ev).is_none());
            continue;
        }
        // the taker's fills stand at even places
        for event in ev.iter().step_by(2) {
            match event {
                OrderEvent::Fill { id, .. } | OrderEvent::PartialFill { id, .. } => {
                    assert_eq!(*id, accepted)
                }
                _ => {}
            }
        }
        if let Some(order) = new_event(&ev) {
            assert_eq!(order.order_id.0, accepted);
        }
        accepted += 1;
    }
    let last = run(&mut e, &req(Side::Bid, 1, 1, TimeInForce::GTC, RequestType::New, 250));
    assert_eq!(new_event(&last).unwrap().order_id.0, accepted);
}

#[test]
fn no_book_is_crossed_at_rest() {
    let mut e = engine_with_book();
    let mut rng = Lcg::new(11);
    let tifs = [TimeInForce::GTC, TimeInForce::IOC, TimeInForce::FOK];
    for _ in 0..2_000 {
        let side = if rng.below(2) == 0 { Side::Bid } else { Side::Ask };
        let kind = if rng.below(4) == 0 { RequestType::Cancel } else { RequestType::New };
        let tif = tifs[rng.below(3) as usize];
        let r = req(side, 95 + rng.below(10), 1 + rng.below(20), tif, kind, rng.below(80) as u8);
        run(&mut e, &r);
        let book = e.book(INSTR).unwrap();
        assert!(!book.is_crossed());
        if let (Some((bid, _)), Some((ask, _))) = (book.best_bid(), book.best_ask()) {
            assert!(bid < ask);
        }
    }
}

#[test]
fn requests_touch_only_their_instrument() {
    let mut e = engine_with_book();
    e.add_instrument(2, 8).unwrap();
    rest_maker(&mut e, Side::Ask, 100, 4, 1);
    let mut r = req(Side::Bid, 100, 4, TimeInForce::GTC, RequestType::New, 2);
    r.instrument_id = 2;
    run(&mut e, &r);
    assert_eq!(e.book(INSTR).unwrap().ask_depth(5), vec![(100, 4)]);
    assert_eq!(e.book(2).unwrap().bid_depth(5), vec![(100, 4)]);
}

#[test]
fn cancel_undoes_rest() {
    let mut e = engine_with_book();
    rest_maker(&mut e, Side::Bid, 99, 4, 1);
    rest_maker(&mut e, Side::Bid, 100, 7, 2);
    let out = run(&mut e, &req(Side::Bid, 0, 0, TimeInForce::GTC, RequestType::Cancel, 2));
    assert_eq!(out, vec![OrderEvent::Cancel { id: 1, origin_ts: 1_000, intent_hash: hash(2) }]);
    assert_eq!(e.book(INSTR).unwrap().bid_depth(5), vec![(99, 4)]);
}

#[test]
fn fok_counts_liquidity_beyond_the_integer_range() {
    let mut e = engine_with_book();
    rest_maker(&mut e, Side::Ask, 100, u64::MAX, 1);
    rest_maker(&mut e, Side::Ask, 101, u64::MAX, 2);
    let out = run(&mut e, &req(Side::Bid, 101, u64::MAX, TimeInForce::FOK, RequestType::New, 3));
    assert_eq!(fill_count(&out), 2);
    assert!(reject(&out).is_none());
    assert_eq!(e.book(INSTR).unwrap().ask_depth(5), vec![(101, u64::MAX)]);
}

#[test]
fn replaying_a_log_gives_the_same_events() {
    let log: Vec<OrderRequest> = (0..60u8)
        .map(|k| {
            let side = if k % 2 == 0 { Side::Bid } else { Side::Ask };
            let tif = match k % 5 {
                0 => TimeInForce::IOC,
                1 => TimeInForce::FOK,
                _ => TimeInForce::GTC,
            };
            let price = 95 + (k as u64 * 7) % 11;
            if k % 9 == 8 {
                req(side, 0, 0, tif, RequestType::Cancel, k - 3)
            } else {
                req(side, price, 1 + (k as u64 % 4), tif, RequestType::New, k)
            }
        })
        .collect();
    let mut once = engine_with_book();
    let mut whole = Vec::new();
    for r in &log {
        once.process(r, &mut whole);
    }
    let mut again = engine_with_book();
    let (mut first, mut second) = (Vec::new(), Vec::new());
    for r in &log[..25] {
        again.process(r, &mut first);
    }
    for r in &log[25..] {
        again.process(r, &mut second);
    }
    assert_eq!(whole, [first, second].concat());
    let (a, b) = (once.book(INSTR).unwrap(), again.book(INSTR).unwrap());
    assert_eq!((a.bid_depth(99), a.ask_depth(99)), (b.bid_depth(99), b.ask_depth(99)));
    assert!(!a.is_crossed());
    assert!(fill_count(&whole) > 0);
}

#[test]
fn vec_sink_appends() {
    let mut sink: Vec<OrderEvent> = Vec::new();
    let event = OrderEvent::Cancel { id: 1, origin_ts: 2, intent_hash: hash(3) };
    sink.emit(event);
    assert_eq!(sink, vec![event]);
}
