//! What a request comes to, read off the books and the events alone.
use super::engine;
use super::engine::EngineModel;
use super::matching;
use crate::orderbook::laws as book_laws;
use crate::orderbook::model;
use crate::orderbook::{BookModel, Entry};
use crate::types::{IntentHash, OrderEvent, OrderRequest, RejectReason, RequestType, Side, TimeInForce};
use vstd::prelude::*;

verus! {

/// The orders of the requester's own side.
pub open spec fn own(book: BookModel, side: Side) -> Seq<Entry> {
    if side == Side::Bid {
        book.bids
    } else {
        book.asks
    }
}

/// The orders that a requester on `side` can trade with.
pub open spec fn facing(book: BookModel, side: Side) -> Seq<Entry> {
    if side == Side::Bid {
        book.asks
    } else {
        book.bids
    }
}

/// The quantity of the first `k` orders of a line.
pub open spec fn ahead(line: Seq<Entry>, k: int) -> int
    decreases k,
{
    if k <= 0 {
        0
    } else {
        ahead(line, k - 1) + line[k - 1].order.quantity
    }
}

/// The event tells a party that `qty` of the `before` that it still had has traded.
pub open spec fn reports(
    event: OrderEvent,
    id: u64,
    before: int,
    qty: int,
    price: u64,
    origin_ts: u64,
    hash: IntentHash,
) -> bool {
    match event {
        OrderEvent::Fill { id: i, fill_qty, fill_price, origin_ts: t, intent_hash } => {
            &&& qty == before
            &&& i == id && fill_qty == qty && fill_price == price && t == origin_ts && intent_hash
                == hash
        },
        OrderEvent::PartialFill {
            id: i,
            fill_qty,
            fill_price,
            remaining_qty,
            origin_ts: t,
            intent_hash,
        } => {
            &&& qty < before
            &&& remaining_qty == before - qty
            &&& i == id && fill_qty == qty && fill_price == price && t == origin_ts && intent_hash
                == hash
        },
        _ => false,
    }
}

proof fn lemma_ahead_step(line: Seq<Entry>, k: int)
    requires
        0 <= k < line.len(),
    ensures
        ahead(line, k + 1) == line[0].order.quantity + ahead(line.skip(1), k),
    decreases k,
{
    if k > 0 {
        lemma_ahead_step(line, k - 1);
        assert(line.skip(1)[k - 1] == line[k]);
    } else {
        assert(ahead(line, 0) == 0);
        assert(ahead(line.skip(1), 0) == 0);
    }
}

/// The `k`-th trade of a taker with `remaining`: it is with the `k`-th order of the
/// line, at that order's price and within the taker's limit, for all that both still
/// have. The taker's report comes first; what a party has left after the trade
/// decides whether it is told of a complete fill.
pub open spec fn trade_is_right(
    req: OrderRequest,
    order_id: u64,
    line: Seq<Entry>,
    remaining: u64,
    ev: Seq<OrderEvent>,
    k: int,
) -> bool {
    let maker = line[k].order;
    let left = remaining - ahead(line, k);
    let qty = if left <= maker.quantity {
        left
    } else {
        maker.quantity as int
    };
    &&& left > 0
    &&& req.side == Side::Bid ==> maker.price <= req.price
    &&& req.side == Side::Ask ==> maker.price >= req.price
    &&& reports(ev[2 * k], order_id, left, qty, maker.price, req.origin_ts, req.intent_hash)
    &&& reports(
        ev[2 * k + 1],
        maker.order_id.0,
        maker.quantity as int,
        qty,
        maker.price,
        req.origin_ts,
        maker.intent_hash,
    )
}

/// What is known of a crossing, by the number of its trades.
#[verifier::spinoff_prover]
#[verifier::rlimit(40)]
proof fn lemma_crossing(req: OrderRequest, order_id: u64, line: Seq<Entry>, remaining: u64)
    ensures
        ({
            let c = matching::cross(req, order_id, line, remaining);
            let n = (c.events.len() / 2) as int;
            &&& c.events.len() == 2 * n
            &&& 0 <= n <= line.len()
            &&& forall|k: int|
                0 <= k < n ==> #[trigger] trade_is_right(
                    req,
                    order_id,
                    line,
                    remaining,
                    c.events,
                    k,
                )
            &&& n < line.len() && ahead(line, n) < remaining ==> {
                &&& req.side == Side::Bid ==> line[n].order.price > req.price
                &&& req.side == Side::Ask ==> line[n].order.price < req.price
            }
            &&& c.remaining == if ahead(line, n) >= remaining {
                0
            } else {
                remaining - ahead(line, n)
            }
            &&& if ahead(line, n) <= remaining {
                &&& c.line == line.skip(n)
                &&& c.freed.len() == n
            } else {
                &&& n > 0
                &&& c.line.len() == line.len() - n + 1
                &&& c.line.skip(1) == line.skip(n)
                &&& c.line[0].handle == line[n - 1].handle
                &&& c.line[0].order == (crate::types::Order {
                    quantity: (ahead(line, n) - remaining) as u64,
                    ..line[n - 1].order
                })
                &&& 0 < ahead(line, n) - remaining <= u64::MAX
                &&& c.freed.len() == n - 1
            }
            &&& forall|k: int|
                0 <= k < c.freed.len() ==> {
                    &&& (#[trigger] c.freed[k]).slot == line[k].handle.slot
                    &&& c.freed[k].generation == if line[k].handle.generation == u32::MAX {
                        1
                    } else {
                        line[k].handle.generation + 1
                    }
                }
        }),
    decreases line.len(),
{
    let c = matching::cross(req, order_id, line, remaining);
    let n = (c.events.len() / 2) as int;
    assert(ahead(line, 0) == 0);
    if remaining == 0 || line.len() == 0 || !matching::crosses(
        req.side,
        req.price,
        line[0].order.price,
    ) {
        assert(n == 0);
        assert(line.skip(0) =~= line);
    } else {
        let maker = line[0].order;
        let qty = matching::traded(remaining, maker);
        let pair = matching::trade_events(req, order_id, remaining, maker);
        assert(ahead(line, 1) == maker.quantity);
        if qty == maker.quantity {
            let tail = line.skip(1);
            let left = (remaining - qty) as u64;
            let rest = matching::cross(req, order_id, tail, left);
            let r = (rest.events.len() / 2) as int;
            lemma_crossing(req, order_id, tail, left);
            assert(n == r + 1);
            lemma_ahead_step(line, r);
            if r < tail.len() {
                assert(tail[r] == line[n]);
            }
            assert forall|k: int| 0 <= k < n implies #[trigger] trade_is_right(
                req,
                order_id,
                line,
                remaining,
                c.events,
                k,
            ) by {
                if k == 0 {
                    assert(c.events[0] == pair[0]);
                    assert(c.events[1] == pair[1]);
                } else {
                    assert(trade_is_right(req, order_id, tail, left, rest.events, k - 1));
                    lemma_ahead_step(line, k - 1);
                    assert(c.events[2 * k] == rest.events[2 * (k - 1)]);
                    assert(c.events[2 * k + 1] == rest.events[2 * (k - 1) + 1]);
                    assert(tail[k - 1] == line[k]);
                }
            }
            assert(tail.skip(r) =~= line.skip(n));
            if ahead(line, n) > remaining {
                assert(tail[r - 1] == line[n - 1]);
            }
            assert forall|k: int| 0 <= k < c.freed.len() implies {
                &&& (#[trigger] c.freed[k]).slot == line[k].handle.slot
                &&& c.freed[k].generation == if line[k].handle.generation == u32::MAX {
                    1
                } else {
                    line[k].handle.generation + 1
                }
            } by {
                if k > 0 {
                    assert(c.freed[k] == rest.freed[k - 1]);
                    assert(tail[k - 1] == line[k]);
                }
            }
        } else {
            assert(n == 1);
            assert(c.line.skip(1) =~= line.skip(1));
            assert(trade_is_right(req, order_id, line, remaining, c.events, 0));
        }
    }
}

/// The request asks for a new order, names a registered instrument and has a quantity
/// and a price.
pub open spec fn is_order(m: EngineModel, req: OrderRequest) -> bool {
    req.request_type == RequestType::New && m.books.contains_key(req.instrument_id) && req.quantity
        > 0 && req.price > 0
}

/// The quantity of the first `k` orders of a line that a taker on `side` with limit
/// `price` may trade with.
pub open spec fn reachable(line: Seq<Entry>, k: int, side: Side, price: u64) -> int
    decreases k,
{
    if k <= 0 {
        0
    } else {
        let maker = line[k - 1].order;
        reachable(line, k - 1, side, price) + if (side == Side::Bid && maker.price <= price) || (side
            == Side::Ask && maker.price >= price) {
            maker.quantity as int
        } else {
            0
        }
    }
}

proof fn lemma_reachable_is_liquidity(line: Seq<Entry>, side: Side, price: u64)
    ensures
        reachable(line, line.len() as int, side, price) == matching::liquidity(side, price, line),
    decreases line.len(),
{
    if line.len() > 0 {
        let front = line.drop_last();
        lemma_reachable_is_liquidity(front, side, price);
        lemma_reachable_front(line, front, front.len() as int, side, price);
    }
}

proof fn lemma_reachable_front(a: Seq<Entry>, b: Seq<Entry>, k: int, side: Side, price: u64)
    requires
        0 <= k <= a.len(),
        k <= b.len(),
        forall|i: int| 0 <= i < k ==> a[i] == b[i],
    ensures
        reachable(a, k, side, price) == reachable(b, k, side, price),
    decreases k,
{
    if k > 0 {
        lemma_reachable_front(a, b, k - 1, side, price);
    }
}

/// What a step does to a book, in terms of the crossing.
proof fn lemma_step(m: EngineModel, req: OrderRequest)
    requires
        is_order(m, req),
    ensures
        ({
            let book = m.books[req.instrument_id];
            let r = engine::step(m, req);
            let c = matching::cross(req, m.next_order_id, facing(book, req.side), req.quantity);
            let after = r.0.books[req.instrument_id];
            let whole = reachable(
                facing(book, req.side),
                facing(book, req.side).len() as int,
                req.side,
                req.price,
            );
            &&& if req.tif == TimeInForce::FOK && whole < req.quantity {
                &&& after == book
                &&& r.1.len() == 1
            } else {
                &&& facing(after, req.side) == c.line
                &&& c.events.is_prefix_of(r.1)
                &&& c.remaining == 0 ==> r.1 == c.events && own(after, req.side) == own(
                    book,
                    req.side,
                ) && after.spare == book.spare + c.freed
                &&& c.remaining > 0 && req.tif != TimeInForce::FOK ==> r.1.len() == c.events.len()
                    + 1
            }
        }),
{
    let book = m.books[req.instrument_id];
    lemma_reachable_is_liquidity(facing(book, req.side), req.side, req.price);
    let c = matching::cross(req, m.next_order_id, facing(book, req.side), req.quantity);
    assert(model::opposite_side(req.side) == if req.side == Side::Bid {
        Side::Ask
    } else {
        Side::Bid
    });
    assert(book.side(model::opposite_side(req.side)) == facing(book, req.side));
    assert(c.events =~= c.events.subrange(0, c.events.len() as int));
}

/// No order trades outside of its limit: a bid never pays more than its price, and an
/// ask never gets less.
pub proof fn law_no_trade_beyond_the_limit(m: EngineModel, req: OrderRequest)
    requires
        is_order(m, req),
    ensures
        ({
            let ev = engine::step(m, req).1;
            forall|i: int|
                0 <= i < ev.len() ==> match #[trigger] ev[i] {
                    OrderEvent::Fill { fill_price, .. } => {
                        &&& req.side == Side::Bid ==> fill_price <= req.price
                        &&& req.side == Side::Ask ==> fill_price >= req.price
                    },
                    OrderEvent::PartialFill { fill_price, .. } => {
                        &&& req.side == Side::Bid ==> fill_price <= req.price
                        &&& req.side == Side::Ask ==> fill_price >= req.price
                    },
                    _ => true,
                }
        }),
{
    lemma_step(m, req);
    let line = facing(m.books[req.instrument_id], req.side);
    let c = matching::cross(req, m.next_order_id, line, req.quantity);
    lemma_crossing(req, m.next_order_id, line, req.quantity);
    let ev = engine::step(m, req).1;
    assert forall|i: int| 0 <= i < c.events.len() implies match #[trigger] c.events[i] {
        OrderEvent::Fill { fill_price, .. } => {
            &&& req.side == Side::Bid ==> fill_price <= req.price
            &&& req.side == Side::Ask ==> fill_price >= req.price
        },
        OrderEvent::PartialFill { fill_price, .. } => {
            &&& req.side == Side::Bid ==> fill_price <= req.price
            &&& req.side == Side::Ask ==> fill_price >= req.price
        },
        _ => true,
    } by {
        assert(trade_is_right(req, m.next_order_id, line, req.quantity, c.events, i / 2));
        assert(i == 2 * (i / 2) || i == 2 * (i / 2) + 1);
    }
    assert forall|i: int| 0 <= i < ev.len() implies match #[trigger] ev[i] {
        OrderEvent::Fill { fill_price, .. } => {
            &&& req.side == Side::Bid ==> fill_price <= req.price
            &&& req.side == Side::Ask ==> fill_price >= req.price
        },
        OrderEvent::PartialFill { fill_price, .. } => {
            &&& req.side == Side::Bid ==> fill_price <= req.price
            &&& req.side == Side::Ask ==> fill_price >= req.price
        },
        _ => true,
    } by {
        if i < c.events.len() && c.events.is_prefix_of(ev) {
            assert(ev[i] == c.events[i]);
        }
    }
}

/// The request is fill-or-kill and the other side holds less than it asks for at
/// prices within its limit.
pub open spec fn falls_short(m: EngineModel, req: OrderRequest) -> bool {
    let line = facing(m.books[req.instrument_id], req.side);
    req.tif == TimeInForce::FOK && reachable(line, line.len() as int, req.side, req.price)
        < req.quantity
}

/// A fill-or-kill request that does not fall short fills.
proof fn lemma_fill_or_kill_fills(m: EngineModel, req: OrderRequest)
    requires
        m.books[req.instrument_id].wf(),
        req.tif == TimeInForce::FOK,
        !falls_short(m, req),
    ensures
        matching::cross(
            req,
            m.next_order_id,
            facing(m.books[req.instrument_id], req.side),
            req.quantity,
        ).remaining == 0,
{
    let line = facing(m.books[req.instrument_id], req.side);
    lemma_reachable_is_liquidity(line, req.side, req.price);
    matching::law_remainder_is_what_liquidity_lacks(req, m.next_order_id, line, req.quantity);
}

/// Trading is by price-time priority and goes as far as it can. Half as many trades
/// as there are events took place, each with the next order of the other side and
/// reported in full. Unless the request is a fill-or-kill that falls short, it stopped
/// only because the request was filled, the other side was empty, or the next order
/// was beyond the limit.
pub proof fn law_trading_goes_as_far_as_it_can(m: EngineModel, req: OrderRequest)
    requires
        is_order(m, req),
        m.books[req.instrument_id].wf(),
    ensures
        ({
            let line = facing(m.books[req.instrument_id], req.side);
            let ev = engine::step(m, req).1;
            let n = (ev.len() / 2) as int;
            &&& n <= line.len()
            &&& forall|k: int|
                0 <= k < n ==> #[trigger] trade_is_right(
                    req,
                    m.next_order_id,
                    line,
                    req.quantity,
                    ev,
                    k,
                )
            &&& falls_short(m, req) ==> n == 0
            &&& !falls_short(m, req) && n < line.len() && ahead(line, n) < req.quantity ==> {
                &&& req.side == Side::Bid ==> line[n].order.price > req.price
                &&& req.side == Side::Ask ==> line[n].order.price < req.price
            }
            &&& ev.len() == 2 * n + if !falls_short(m, req) && ahead(line, n) >= req.quantity {
                0int
            } else {
                1
            }
        }),
{
    lemma_step(m, req);
    let line = facing(m.books[req.instrument_id], req.side);
    let c = matching::cross(req, m.next_order_id, line, req.quantity);
    lemma_crossing(req, m.next_order_id, line, req.quantity);
    let ev = engine::step(m, req).1;
    if req.tif == TimeInForce::FOK && !falls_short(m, req) {
        lemma_fill_or_kill_fills(m, req);
    }
    if !falls_short(m, req) {
        assert forall|k: int| 0 <= k < c.events.len() / 2 implies #[trigger] trade_is_right(
            req,
            m.next_order_id,
            line,
            req.quantity,
            ev,
            k,
        ) by {
            assert(trade_is_right(req, m.next_order_id, line, req.quantity, c.events, k));
            assert(ev[2 * k] == c.events[2 * k]);
            assert(ev[2 * k + 1] == c.events[2 * k + 1]);
        }
    }
}

/// The other side loses exactly what traded: of its first orders those that were
/// filled, and of the last one that traded the part that was. Every other order stays
/// as it is and where it is.
pub proof fn law_other_side_loses_what_traded(m: EngineModel, req: OrderRequest)
    requires
        is_order(m, req),
        m.books[req.instrument_id].wf(),
    ensures
        ({
            let r = engine::step(m, req);
            let line = facing(m.books[req.instrument_id], req.side);
            let left = facing(r.0.books[req.instrument_id], req.side);
            let n = (r.1.len() / 2) as int;
            if ahead(line, n) <= req.quantity {
                &&& left.len() == line.len() - n
                &&& forall|i: int| 0 <= i < left.len() ==> #[trigger] left[i] == line[n + i]
            } else {
                &&& left.len() == line.len() - n + 1
                &&& left[0].handle == line[n - 1].handle
                &&& left[0].order.quantity == ahead(line, n) - req.quantity
                &&& left[0].order == (crate::types::Order {
                    quantity: left[0].order.quantity,
                    ..line[n - 1].order
                })
                &&& forall|i: int| 1 <= i < left.len() ==> #[trigger] left[i] == line[n + i - 1]
            }
        }),
{
    lemma_step(m, req);
    law_trading_goes_as_far_as_it_can(m, req);
    let book = m.books[req.instrument_id];
    let line = facing(book, req.side);
    let c = matching::cross(req, m.next_order_id, line, req.quantity);
    lemma_crossing(req, m.next_order_id, line, req.quantity);
    let r = engine::step(m, req);
    let left = facing(r.0.books[req.instrument_id], req.side);
    let n = (r.1.len() / 2) as int;
    if req.tif == TimeInForce::FOK && !falls_short(m, req) {
        lemma_fill_or_kill_fills(m, req);
    }
    if falls_short(m, req) {
        assert(n == 0);
        assert(ahead(line, 0) == 0);
        assert(left == line);
    } else {
        assert(n == c.events.len() / 2);
        assert(left == c.line);
        if ahead(line, n) > req.quantity {
            assert forall|i: int| 1 <= i < left.len() implies #[trigger] left[i] == line[n + i
                - 1] by {
                assert(c.line.skip(1)[i - 1] == line.skip(n)[i - 1]);
            }
        }
    }
}

/// An order on either side carries `hash`.
pub open spec fn rests(book: BookModel, hash: IntentHash) -> bool {
    ||| exists|i: int| 0 <= i < book.bids.len() && (#[trigger] book.bids[i]).order.intent_hash == hash
    ||| exists|i: int| 0 <= i < book.asks.len() && (#[trigger] book.asks[i]).order.intent_hash == hash
}

proof fn lemma_rests_is_has_intent(book: BookModel, hash: IntentHash)
    ensures
        rests(book, hash) == book.has_intent(hash),
{
    book_laws::law_intent_rests_with_its_order(book, hash);
}

/// The event refuses `remaining` of the request for `reason`, under order id 0.
pub open spec fn refuses(
    event: OrderEvent,
    req: OrderRequest,
    reason: RejectReason,
    remaining: int,
) -> bool {
    match event {
        OrderEvent::Reject { id, reason: why, remaining_qty, origin_ts, intent_hash } => {
            id == 0 && why == reason && remaining_qty == remaining && origin_ts == req.origin_ts
                && intent_hash == req.intent_hash
        },
        _ => false,
    }
}

/// The event confirms that `remaining` of the request rests under `id`.
pub open spec fn confirms_rest(event: OrderEvent, req: OrderRequest, id: u64, remaining: int) -> bool {
    match event {
        OrderEvent::New(order) => {
            &&& order.order_id.0 == id
            &&& order.quantity == remaining
            &&& order.price == req.price
            &&& order.side == req.side
            &&& order.order_type == req.order_type
            &&& order.tif == req.tif
            &&& order.instrument_id == req.instrument_id
            &&& order.intent_hash == req.intent_hash
            &&& order.origin_ts == req.origin_ts
            &&& order._padding == 0
        },
        _ => false,
    }
}

/// Good till cancelled: whatever part of the request has traded, what is left rests.
/// It joins its own side behind every order at a price as good and ahead of every
/// worse one, and the last event confirms it. It is refused only if an order with
/// its intent hash is resting, or if the book had no room and no trade made any.
#[verifier::spinoff_prover]
#[verifier::rlimit(40)]
pub proof fn law_good_till_cancelled_rests_what_is_left(m: EngineModel, req: OrderRequest)
    requires
        is_order(m, req),
        m.books[req.instrument_id].wf(),
        req.tif == TimeInForce::GTC,
    ensures
        ({
            let book = m.books[req.instrument_id];
            let line = facing(book, req.side);
            let r = engine::step(m, req);
            let after = r.0.books[req.instrument_id];
            let n = (r.1.len() / 2) as int;
            let left = req.quantity - ahead(line, n);
            let mine = own(book, req.side);
            let joined = own(after, req.side);
            let clash = rests(
                BookModel {
                    bids: if req.side == Side::Bid {
                        mine
                    } else {
                        line.skip(n)
                    },
                    asks: if req.side == Side::Bid {
                        line.skip(n)
                    } else {
                        mine
                    },
                    spare: Seq::empty(),
                },
                req.intent_hash,
            );
            if left <= 0 {
                &&& r.1.len() == 2 * n
                &&& joined == mine
            } else if clash {
                &&& refuses(r.1[2 * n], req, RejectReason::DuplicateIntent, left)
                &&& joined == mine
            } else if book.spare.len() == 0 && n == 0 {
                &&& refuses(r.1[2 * n], req, RejectReason::SystemAtCapacity, left)
                &&& joined == mine
            } else {
                &&& confirms_rest(r.1[2 * n], req, m.next_order_id, left)
                &&& joined.len() == mine.len() + 1
                &&& exists|p: int|
                    0 <= p <= mine.len() && (#[trigger] joined[p]).order == r.1[2 * n]->New_0
                        && joined.remove(p) == mine && forall|i: int|
                        0 <= i < mine.len() ==> if req.side == Side::Bid {
                            (#[trigger] mine[i]).order.price >= req.price <==> i < p
                        } else {
                            mine[i].order.price <= req.price <==> i < p
                        }
            }
        }),
{
    lemma_step(m, req);
    law_trading_goes_as_far_as_it_can(m, req);
    let book = m.books[req.instrument_id];
    let line = facing(book, req.side);
    let c = matching::cross(req, m.next_order_id, line, req.quantity);
    lemma_crossing(req, m.next_order_id, line, req.quantity);
    let r = engine::step(m, req);
    let n = (r.1.len() / 2) as int;
    let left = req.quantity - ahead(line, n);
    let mine = own(book, req.side);
    let middle = matching::crossed_book(req, m.next_order_id, book);
    assert(book.side(req.side) == mine);
    assert(middle.side(req.side) == mine);
    if left > 0 {
        assert(c.line == line.skip(n));
        let bare = BookModel {
            bids: if req.side == Side::Bid {
                mine
            } else {
                line.skip(n)
            },
            asks: if req.side == Side::Bid {
                line.skip(n)
            } else {
                mine
            },
            spare: Seq::empty(),
        };
        lemma_rests_is_has_intent(bare, req.intent_hash);
        assert(middle.bids == bare.bids && middle.asks == bare.asks);
        lemma_rests_is_has_intent(middle, req.intent_hash);
        assert(rests(middle, req.intent_hash) == rests(bare, req.intent_hash));
        assert(middle.spare.len() == book.spare.len() + n);
        if !rests(bare, req.intent_hash) && middle.spare.len() > 0 {
            let resting = matching::resting_order(req, m.next_order_id, c.remaining);
            let p = model::rank(req.side, mine, req.price) as int;
            book_laws::law_newcomer_keeps_priority(req.side, mine, req.price);
            let joined = own(r.0.books[req.instrument_id], req.side);
            assert(joined == middle.joined(resting).side(req.side));
            assert(joined[p].order == resting);
            assert(joined.remove(p) =~= mine);
            assert forall|i: int| 0 <= i < mine.len() implies if req.side == Side::Bid {
                (#[trigger] mine[i]).order.price >= req.price <==> i < p
            } else {
                mine[i].order.price <= req.price <==> i < p
            } by {
                assert(i < p ==> !model::better(req.side, req.price, mine[i].order.price));
                assert(i >= p ==> model::better(req.side, req.price, mine[i].order.price));
            }
        }
    }
}

/// Immediate or cancel: what has not traded is refused, and nothing rests.
pub proof fn law_immediate_or_cancel_refuses_what_is_left(m: EngineModel, req: OrderRequest)
    requires
        is_order(m, req),
        m.books[req.instrument_id].wf(),
        req.tif == TimeInForce::IOC,
    ensures
        ({
            let book = m.books[req.instrument_id];
            let r = engine::step(m, req);
            let n = (r.1.len() / 2) as int;
            let left = req.quantity - ahead(facing(book, req.side), n);
            &&& own(r.0.books[req.instrument_id], req.side) == own(book, req.side)
            &&& left <= 0 ==> r.1.len() == 2 * n
            &&& left > 0 ==> r.1.len() == 2 * n + 1 && refuses(
                r.1[2 * n],
                req,
                RejectReason::InsufficientLiquidity,
                left,
            )
        }),
{
    lemma_step(m, req);
    law_trading_goes_as_far_as_it_can(m, req);
    let line = facing(m.books[req.instrument_id], req.side);
    lemma_crossing(req, m.next_order_id, line, req.quantity);
}

/// Fill or kill: a request that the other side can fill within its limit fills
/// completely, and any other changes no book and is refused whole.
pub proof fn law_fill_or_kill_fills_or_is_refused(m: EngineModel, req: OrderRequest)
    requires
        is_order(m, req),
        m.books[req.instrument_id].wf(),
        req.tif == TimeInForce::FOK,
    ensures
        ({
            let book = m.books[req.instrument_id];
            let line = facing(book, req.side);
            let r = engine::step(m, req);
            let n = (r.1.len() / 2) as int;
            if reachable(line, line.len() as int, req.side, req.price) >= req.quantity {
                &&& ahead(line, n) >= req.quantity
                &&& r.1.len() == 2 * n
                &&& own(r.0.books[req.instrument_id], req.side) == own(book, req.side)
            } else {
                &&& r.0.books == m.books
                &&& r.1.len() == 1
                &&& refuses(r.1[0], req, RejectReason::InsufficientLiquidity, req.quantity as int)
            }
        }),
{
    lemma_step(m, req);
    law_trading_goes_as_far_as_it_can(m, req);
    let line = facing(m.books[req.instrument_id], req.side);
    lemma_crossing(req, m.next_order_id, line, req.quantity);
    lemma_reachable_is_liquidity(line, req.side, req.price);
    let r = engine::step(m, req);
    if falls_short(m, req) {
        assert(r.0.books =~= m.books);
    } else {
        lemma_fill_or_kill_fills(m, req);
    }
}

/// A request that cannot become an order is refused whole and changes nothing: first
/// for an unknown instrument, then for having no quantity, then for having no price.
pub proof fn law_invalid_orders_are_refused(m: EngineModel, req: OrderRequest)
    requires
        req.request_type == RequestType::New,
        !is_order(m, req),
    ensures
        engine::step(m, req).0 == m,
        engine::step(m, req).1.len() == 1,
        refuses(
            engine::step(m, req).1[0],
            req,
            if !m.books.contains_key(req.instrument_id) {
                RejectReason::UnknownInstrument
            } else if req.quantity == 0 {
                RejectReason::InvalidQuantity
            } else {
                RejectReason::InvalidPrice
            },
            req.quantity as int,
        ),
{
}

/// An order that is accepted takes the next id, and no book but its own changes.
pub proof fn law_order_takes_one_id(m: EngineModel, req: OrderRequest)
    requires
        is_order(m, req),
        m.next_order_id < u64::MAX,
    ensures
        engine::step(m, req).0.next_order_id == m.next_order_id + 1,
        engine::step(m, req).0.books.dom() == m.books.dom(),
        forall|id: u32|
            m.books.contains_key(id) && id != req.instrument_id ==> #[trigger] engine::step(
                m,
                req,
            ).0.books[id] == m.books[id],
{
    assert(engine::step(m, req).0.books.dom() =~= m.books.dom());
}

/// Cancelling takes off the order with the request's intent hash, wherever it rests
/// and however long, and confirms it under that order's own id. Nothing else
/// changes.
pub proof fn law_cancel_takes_off_the_order_it_names(
    m: EngineModel,
    req: OrderRequest,
    side: Side,
    i: int,
)
    requires
        req.request_type == RequestType::Cancel,
        m.books.contains_key(req.instrument_id),
        m.books[req.instrument_id].wf(),
        0 <= i < own(m.books[req.instrument_id], side).len(),
        own(m.books[req.instrument_id], side)[i].order.intent_hash == req.intent_hash,
    ensures
        ({
            let book = m.books[req.instrument_id];
            let r = engine::step(m, req);
            let after = r.0.books[req.instrument_id];
            &&& r.1 == seq![
                OrderEvent::Cancel {
                    id: own(book, side)[i].order.order_id.0,
                    origin_ts: req.origin_ts,
                    intent_hash: req.intent_hash,
                },
            ]
            &&& own(after, side) == own(book, side).remove(i)
            &&& facing(after, side) == facing(book, side)
            &&& after.spare.len() == book.spare.len() + 1
            &&& after.spare.drop_last() == book.spare
            &&& after.spare.last().slot == own(book, side)[i].handle.slot
            &&& r.0.next_order_id == m.next_order_id
            &&& r.0.books == m.books.insert(req.instrument_id, after)
        }),
{
    let book = m.books[req.instrument_id];
    assert(book.side(side)[i] == own(book, side)[i]);
    assert(book.has_intent(req.intent_hash));
    let at = engine::place_of(book, req.intent_hash);
    assert(book.side(at.0)[at.1].order.intent_hash == req.intent_hash);
    assert(at == (side, i));
    let r = engine::step(m, req);
    assert(r.0.books[req.instrument_id].spare.drop_last() =~= book.spare);
}

/// Cancelling what does not rest is refused and changes nothing.
pub proof fn law_cancel_of_nothing_is_refused(m: EngineModel, req: OrderRequest)
    requires
        req.request_type == RequestType::Cancel,
        !m.books.contains_key(req.instrument_id) || !rests(
            m.books[req.instrument_id],
            req.intent_hash,
        ),
    ensures
        engine::step(m, req).0 == m,
        engine::step(m, req).1.len() == 1,
        refuses(
            engine::step(m, req).1[0],
            req,
            if m.books.contains_key(req.instrument_id) {
                RejectReason::UnknownOrder
            } else {
                RejectReason::UnknownInstrument
            },
            0,
        ),
{
    lemma_rests_is_has_intent(m.books[req.instrument_id], req.intent_hash);
}

/// Every cancellation can be carried out, and so can every new order as long as an
/// order id is left and the total of its side and the order fits a machine word.
pub proof fn law_requests_can_be_carried_out(m: EngineModel, req: OrderRequest)
    requires
        req.request_type == RequestType::New || req.request_type == RequestType::Cancel,
        m.next_order_id < u64::MAX,
        is_order(m, req) ==> {
            let mine = own(m.books[req.instrument_id], req.side);
            ahead(mine, mine.len() as int) + req.quantity <= u64::MAX
        },
    ensures
        engine::feasible(m, req),
{
    if is_order(m, req) {
        let book = m.books[req.instrument_id];
        let mine = own(book, req.side);
        lemma_level_within_line(mine, req.price);
        lemma_crossing(req, m.next_order_id, facing(book, req.side), req.quantity);
        assert(book.side(req.side) == mine);
        assert(book.side(model::opposite_side(req.side)) == facing(book, req.side));
        super::laws::law_trades_conserve_quantity(
            req,
            m.next_order_id,
            facing(book, req.side),
            req.quantity,
        );
    }
}

/// A level holds no more than its line.
proof fn lemma_level_within_line(line: Seq<Entry>, price: u64)
    ensures
        model::total(model::level_of(line, price)) <= ahead(line, line.len() as int),
    decreases line.len(),
{
    reveal(Seq::filter);
    if line.len() > 0 {
        let front = line.drop_last();
        lemma_level_within_line(front, price);
        lemma_ahead_front(line, front, front.len() as int);
        let at_price = |e: Entry| e.order.price == price;
        let row = front.filter(at_price);
        if at_price(line.last()) {
            assert(line.filter(at_price) == row.push(line.last()));
            assert(row.push(line.last()).drop_last() =~= row);
        } else {
            assert(line.filter(at_price) == row);
        }
    }
}

proof fn lemma_ahead_front(a: Seq<Entry>, b: Seq<Entry>, k: int)
    requires
        0 <= k <= a.len(),
        k <= b.len(),
        forall|i: int| 0 <= i < k ==> a[i] == b[i],
    ensures
        ahead(a, k) == ahead(b, k),
    decreases k,
{
    if k > 0 {
        lemma_ahead_front(a, b, k - 1);
    }
}

/// How many slots a book has, in use and spare.
pub open spec fn slots(book: BookModel) -> nat {
    book.bids.len() + book.asks.len() + book.spare.len()
}

proof fn lemma_crossing_keeps_slots(req: OrderRequest, order_id: u64, book: BookModel)
    ensures
        slots(matching::crossed_book(req, order_id, book)) == slots(book),
        matching::crossed_book(req, order_id, book).side(req.side) == book.side(req.side),
{
    let line = book.side(model::opposite_side(req.side));
    lemma_crossing(req, order_id, line, req.quantity);
    let c = matching::cross(req, order_id, line, req.quantity);
    assert(c.line.len() + c.freed.len() == line.len());
}

proof fn lemma_joining_keeps_slots(book: BookModel, order: crate::types::Order)
    requires
        model::line_wf(order.side, book.side(order.side)),
        book.spare.len() > 0,
    ensures
        slots(book.joined(order)) == slots(book),
{
    book_laws::law_newcomer_keeps_priority(order.side, book.side(order.side), order.price);
}

proof fn lemma_matching_keeps_slots(req: OrderRequest, order_id: u64, book: BookModel)
    requires
        book.wf(),
    ensures
        slots(matching::matched(req, order_id, book).0) == slots(book),
{
    lemma_crossing_keeps_slots(req, order_id, book);
    let middle = matching::crossed_book(req, order_id, book);
    let line = book.side(model::opposite_side(req.side));
    let c = matching::cross(req, order_id, line, req.quantity);
    if middle.spare.len() > 0 {
        lemma_joining_keeps_slots(middle, matching::resting_order(req, order_id, c.remaining));
    }
}

/// No slot is lost or made up: whatever a request does, the orders on both sides of its
/// book and the spare handles are together as many as before.
pub proof fn law_slots_are_neither_lost_nor_made_up(m: EngineModel, req: OrderRequest)
    requires
        m.books.contains_key(req.instrument_id),
        m.books[req.instrument_id].wf(),
    ensures
        slots(engine::step(m, req).0.books[req.instrument_id]) == slots(m.books[req.instrument_id]),
{
    let book = m.books[req.instrument_id];
    lemma_matching_keeps_slots(req, m.next_order_id, book);
    if book.has_intent(req.intent_hash) {
        let at = engine::place_of(book, req.intent_hash);
        assert(book.side(at.0)[at.1].order.intent_hash == req.intent_hash);
        book_laws::law_removal_takes_one_order(book, at.0, at.1);
    }
}

} // verus!
