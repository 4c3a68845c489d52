use dex_core::orderbook::{InsertError, LevelCursor, OrderBook, PriceLevel};
use dex_core::types::{IntentHash, Order, OrderId, OrderType, Side, TimeInForce};

fn make_order(price: u64, qty: u64, side: Side, hash_byte: u8) -> Order {
    let mut hash = [0u8; 32];
    hash[0] = hash_byte;
    Order {
        order_id: OrderId(1),
        price,
        quantity: qty,
        origin_ts: 0,
        instrument_id: 1,
        side,
        order_type: OrderType::Limit,
        tif: TimeInForce::GTC,
        _padding: 0,
        intent_hash: IntentHash(hash),
    }
}

#[test]
fn insert_one_bid_makes_it_best() {
    let mut book = OrderBook::new(1, 64);
    let _ = book.insert(make_order(100, 10, Side::Bid, 1)).unwrap();
    let (price, level) = book.best_bid().unwrap();
    assert_eq!(price, 100);
    assert_eq!(level.total_qty(), 10);
    assert_eq!(level.len(), 1);
}

#[test]
fn duplicate_intent_rejected() {
    let mut book = OrderBook::new(1, 64);
    book.insert(make_order(100, 10, Side::Bid, 1)).unwrap();
    let err = book.insert(make_order(101, 5, Side::Bid, 1)).unwrap_err();
    assert_eq!(err, InsertError::DuplicateIntent);
}

#[test]
fn two_orders_same_price_share_level() {
    let mut book = OrderBook::new(1, 64);
    book.insert(make_order(100, 10, Side::Bid, 1)).unwrap();
    book.insert(make_order(100, 7,  Side::Bid, 2)).unwrap();
    let (_, level) = book.best_bid().unwrap();
    assert_eq!(level.total_qty(), 17);
    assert_eq!(level.len(), 2);
}

#[test]
fn higher_bid_beats_lower() {
    let mut book = OrderBook::new(1, 64);
    book.insert(make_order(100, 10, Side::Bid, 1)).unwrap();
    book.insert(make_order(105, 5,  Side::Bid, 2)).unwrap();
    let (price, _) = book.best_bid().unwrap();
    assert_eq!(price, 105);
}

#[test]
fn cancel_existing_order_returns_it() {
    let mut book = OrderBook::new(1, 64);
    let original = make_order(100, 10, Side::Bid, 1);
    book.insert(original).unwrap();
    let cancelled = book.cancel(&original.intent_hash).unwrap();
    assert_eq!(cancelled, original);
}

#[test]
fn cancel_nonexistent_returns_none() {
    let mut book = OrderBook::new(1, 64);
    let hash = IntentHash([99u8; 32]);
    assert!(book.cancel(&hash).is_none());
}

#[test]
fn cancel_updates_total_qty() {
    let mut book = OrderBook::new(1, 64);
    let a = make_order(100, 10, Side::Bid, 1);
    let b = make_order(100, 7,  Side::Bid, 2);
    book.insert(a).unwrap();
    book.insert(b).unwrap();
    book.cancel(&a.intent_hash).unwrap();
    let (_, level) = book.best_bid().unwrap();
    assert_eq!(level.total_qty(), 7);
    assert_eq!(level.len(), 1);
}

#[test]
fn cancel_empties_level_removes_it() {
    let mut book = OrderBook::new(1, 64);
    let order = make_order(100, 10, Side::Bid, 1);
    book.insert(order).unwrap();
    assert!(book.best_bid().is_some());
    book.cancel(&order.intent_hash).unwrap();
    assert!(book.best_bid().is_none(), "empty level should be removed");
}

#[test]
fn cancel_one_of_many_levels_preserves_others() {
    let mut book = OrderBook::new(1, 64);
    let a = make_order(100, 10, Side::Bid, 1);
    let b = make_order(105, 5,  Side::Bid, 2);
    book.insert(a).unwrap();
    book.insert(b).unwrap();
    book.cancel(&b.intent_hash).unwrap();  // cancels the best bid
    let (price, _) = book.best_bid().unwrap();
    assert_eq!(price, 100, "after canceling best, second-best becomes best");
}

#[test]
fn cancel_then_reinsert_same_hash_works() {
    // Tests that intent_hash isn't "blacklisted" after cancel — the index
    // entry is fully removed, so re-insert with the same hash is fine.
    let mut book = OrderBook::new(1, 64);
    let order = make_order(100, 10, Side::Bid, 1);
    book.insert(order).unwrap();
    book.cancel(&order.intent_hash).unwrap();
    assert!(book.insert(order).is_ok(), "should be re-insertable after cancel");
}

#[test]
fn pop_top_single_order_returns_it() {
    let mut book = OrderBook::new(1, 64);
    let order = make_order(100, 10, Side::Bid, 1);
    book.insert(order).unwrap();
    let popped = book.pop_top(Side::Bid).unwrap();
    assert_eq!(popped, order);
    assert!(book.best_bid().is_none(), "level should be removed after popping only order");
}

#[test]
fn pop_top_fifo_order() {
    // a inserted before b at same price → a pops first
    let mut book = OrderBook::new(1, 64);
    let a = make_order(100, 10, Side::Bid, 1);
    let b = make_order(100, 7,  Side::Bid, 2);
    book.insert(a).unwrap();
    book.insert(b).unwrap();
    assert_eq!(book.pop_top(Side::Bid).unwrap(), a);
    assert_eq!(book.pop_top(Side::Bid).unwrap(), b);
}

#[test]
fn pop_top_empty_side_returns_none() {
    let mut book = OrderBook::new(1, 64);
    assert!(book.pop_top(Side::Bid).is_none());
    assert!(book.pop_top(Side::Ask).is_none());
}

#[test]
fn pop_top_then_reinsert_works() {
    // Arena slot should be freed; intent_hash should be removable
    let mut book = OrderBook::new(1, 64);
    let order = make_order(100, 10, Side::Bid, 1);
    book.insert(order).unwrap();
    book.pop_top(Side::Bid).unwrap();
    assert!(book.insert(order).is_ok());
}

#[test]
fn pop_top_walks_levels() {
    // Two levels; popping best exposes second-best
    let mut book = OrderBook::new(1, 64);
    let a = make_order(100, 10, Side::Bid, 1);
    let b = make_order(105, 5,  Side::Bid, 2);
    book.insert(a).unwrap();
    book.insert(b).unwrap();
    let popped = book.pop_top(Side::Bid).unwrap();
    assert_eq!(popped.price, 105);  // best bid first
    let (price, _) = book.best_bid().unwrap();
    assert_eq!(price, 100);
}

#[test]
fn reduce_top_partial_qty() {
    let mut book = OrderBook::new(1, 64);
    let order = make_order(100, 10, Side::Bid, 1);
    book.insert(order).unwrap();
    book.reduce_top(Side::Bid, 3);
    let (_, level) = book.best_bid().unwrap();
    assert_eq!(level.total_qty(), 7);
    assert_eq!(level.len(), 1, "order stays — partial fill doesn't remove");
}

#[test]
fn reduce_top_preserves_head_identity() {
    // After reduce, peek_top should return the same arena_idx + intent_hash
    let mut book = OrderBook::new(1, 64);
    let order = make_order(100, 10, Side::Bid, 1);
    book.insert(order).unwrap();
    let top_before = book.peek_top(Side::Bid).unwrap();
    let idx_before = top_before.arena_idx;
    book.reduce_top(Side::Bid, 4);
    let top_after = book.peek_top(Side::Bid).unwrap();
    assert_eq!(top_after.arena_idx, idx_before);
    assert_eq!(top_after.order.quantity, 6);
}

#[test]
fn reduce_top_multiple_calls_compound() {
    let mut book = OrderBook::new(1, 64);
    let order = make_order(100, 10, Side::Bid, 1);
    book.insert(order).unwrap();
    book.reduce_top(Side::Bid, 2);
    book.reduce_top(Side::Bid, 3);
    let (_, level) = book.best_bid().unwrap();
    assert_eq!(level.total_qty(), 5);
}

// ----- sides, depth and capacity --------------------------------------------

#[test]
fn lower_ask_beats_higher() {
    let mut book = OrderBook::new(1, 64);
    book.insert(make_order(105, 5, Side::Ask, 1)).unwrap();
    book.insert(make_order(101, 6, Side::Ask, 2)).unwrap();
    let (price, level) = book.best_ask().unwrap();
    assert_eq!((price, level.total_qty()), (101, 6));
    assert!(book.is_empty(Side::Bid));
    assert!(!book.is_empty(Side::Ask));
}

#[test]
fn full_book_refuses_and_stays_as_it_was() {
    let mut book = OrderBook::new(7, 2);
    assert_eq!(book.instrument_id(), 7);
    book.insert(make_order(100, 1, Side::Bid, 1)).unwrap();
    book.insert(make_order(100, 2, Side::Bid, 2)).unwrap();
    assert_eq!(book.insert(make_order(100, 3, Side::Bid, 3)).unwrap_err(), InsertError::ArenaFull);
    // a known intent is reported as such even when there is no room
    assert_eq!(book.insert(make_order(100, 3, Side::Bid, 1)).unwrap_err(), InsertError::DuplicateIntent);
    assert_eq!(book.level_qty(Side::Bid, 100), 3);
}

#[test]
fn depth_lists_levels_best_first() {
    let mut book = OrderBook::new(1, 64);
    for (k, (price, qty)) in [(100, 1), (102, 2), (101, 4), (102, 8)].into_iter().enumerate() {
        book.insert(make_order(price, qty, Side::Bid, k as u8)).unwrap();
        book.insert(make_order(price + 50, qty, Side::Ask, 100 + k as u8)).unwrap();
    }
    assert_eq!(book.bid_depth(10), vec![(102, 10), (101, 4), (100, 1)]);
    assert_eq!(book.bid_depth(2), vec![(102, 10), (101, 4)]);
    assert_eq!(book.ask_depth(10), vec![(150, 1), (151, 4), (152, 10)]);
    assert_eq!(book.ask_depth(1), vec![(150, 1)]);
    assert_eq!(book.ask_depth(0), vec![]);
    assert_eq!(book.level_qty(Side::Ask, 152), 10);
    assert_eq!(book.level_qty(Side::Ask, 153), 0);
}

#[test]
fn crossed_means_best_bid_reaches_best_ask() {
    let mut book = OrderBook::new(1, 64);
    assert!(!book.is_crossed());
    book.insert(make_order(100, 1, Side::Bid, 1)).unwrap();
    assert!(!book.is_crossed());
    book.insert(make_order(101, 1, Side::Ask, 2)).unwrap();
    assert!(!book.is_crossed());
    book.insert(make_order(100, 1, Side::Ask, 3)).unwrap();
    assert!(book.is_crossed());
}

#[test]
fn peek_top_shows_the_oldest_order_of_the_best_level() {
    let mut book = OrderBook::new(1, 64);
    assert!(book.peek_top(Side::Ask).is_none());
    let idx = book.insert(make_order(100, 3, Side::Ask, 1)).unwrap();
    book.insert(make_order(100, 4, Side::Ask, 2)).unwrap();
    book.insert(make_order(101, 5, Side::Ask, 3)).unwrap();
    let top = book.peek_top(Side::Ask).unwrap();
    assert_eq!((top.price, top.arena_idx, top.order.quantity), (100, idx, 3));
}

#[test]
fn cancel_from_the_middle_keeps_the_queue_linked() {
    let mut book = OrderBook::new(1, 64);
    for k in 1..=4 {
        book.insert(make_order(100, k as u64, Side::Ask, k)).unwrap();
    }
    let middle = make_order(100, 2, Side::Ask, 2);
    assert_eq!(book.cancel(&middle.intent_hash), Some(middle));
    let last = make_order(100, 4, Side::Ask, 4);
    assert_eq!(book.cancel(&last.intent_hash), Some(last));
    book.insert(make_order(100, 9, Side::Ask, 9)).unwrap();
    let left: Vec<u64> = (0..3).map(|_| book.pop_top(Side::Ask).unwrap().quantity).collect();
    assert_eq!(left, vec![1, 3, 9]);
    assert!(book.pop_top(Side::Ask).is_none());
}

#[test]
fn insert_then_cancel_changes_nothing() {
    let mut book = OrderBook::new(1, 64);
    for k in 1..=5u8 {
        book.insert(make_order(100 + (k as u64 % 2), k as u64, Side::Bid, k)).unwrap();
    }
    let before = book.bid_depth(10);
    let extra = make_order(101, 50, Side::Bid, 77);
    book.insert(extra).unwrap();
    assert_ne!(book.bid_depth(10), before);
    assert_eq!(book.cancel(&extra.intent_hash), Some(extra));
    assert_eq!(book.bid_depth(10), before);
}

#[test]
fn insert_adds_exactly_its_quantity_to_its_level() {
    let mut book = OrderBook::new(1, 64);
    book.insert(make_order(100, 10, Side::Bid, 1)).unwrap();
    book.insert(make_order(99, 3, Side::Bid, 2)).unwrap();
    book.insert(make_order(100, 5, Side::Bid, 3)).unwrap();
    assert_eq!(book.level_qty(Side::Bid, 100), 15);
    assert_eq!(book.level_qty(Side::Bid, 99), 3);
}

#[test]
fn newcomers_queue_behind_equals() {
    let mut book = OrderBook::new(1, 64);
    for (k, price) in [100u64, 101, 100, 101, 102].into_iter().enumerate() {
        book.insert(make_order(price, k as u64 + 1, Side::Bid, k as u8)).unwrap();
    }
    let mut line = Vec::new();
    while let Some(order) = book.pop_top(Side::Bid) {
        line.push((order.price, order.quantity));
    }
    assert_eq!(line, vec![(102, 5), (101, 2), (101, 4), (100, 1), (100, 3)]);
}

#[test]
fn cursor_consumes_one_level() {
    let mut book = OrderBook::new(1, 64);
    book.insert(make_order(100, 3, Side::Ask, 1)).unwrap();
    book.insert(make_order(100, 8, Side::Ask, 2)).unwrap();
    book.insert(make_order(101, 5, Side::Ask, 3)).unwrap();
    let mut cursor = LevelCursor::new(&mut book, Side::Ask).unwrap();
    assert_eq!(cursor.price(), 100);
    assert_eq!(cursor.head().unwrap().quantity, 3);
    assert!(cursor.pop_head());
    cursor.reduce_head(6);
    assert_eq!(cursor.head().unwrap().quantity, 2);
    assert!(!cursor.pop_head());
    assert!(cursor.head().is_none());
    assert_eq!(cursor.price(), 100);
    cursor.finish();
    assert_eq!(book.ask_depth(10), vec![(101, 5)]);
    assert!(LevelCursor::new(&mut book, Side::Bid).is_none());
}

#[test]
fn levels_with_orders_have_a_valid_head() {
    let mut book = OrderBook::new(1, 8);
    let first = book.insert(make_order(100, 10, Side::Bid, 1)).unwrap();
    book.insert(make_order(100, 5, Side::Bid, 2)).unwrap();
    book.insert(make_order(110, 5, Side::Ask, 3)).unwrap();
    let (_, bids) = book.best_bid().unwrap();
    assert_eq!((bids.head, bids.len()), (first, 2));
    assert!(bids.head.is_valid());
    let (_, asks) = book.best_ask().unwrap();
    assert!(asks.len() > 0 && asks.head.is_valid());
}

#[test]
fn default_level_is_empty() {
    let level = PriceLevel::default();
    assert!(level.is_empty());
    assert_eq!((level.len(), level.total_qty(), level.head()), (0, 0, None));
}
