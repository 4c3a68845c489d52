//! Price-time matching of one request against a book.
//!
//! An incoming order crosses the opposite side until it is exhausted, the side
//! is empty, or the first resting order is out of its price. Trades print at the
//! resting order's price. What is left is handled by the time in force: GTC
//! rests it, IOC refuses it, and FOK is checked up front so that it fills
//! completely or never touches the book.
use super::events;
use super::events::push_reject;
use super::sink::EventSink;
use crate::arena::ArenaIdx;
use crate::orderbook::model;
use crate::orderbook::{BookModel, Entry, InsertError, OrderBook};
use crate::types::{Order, OrderEvent, OrderId, OrderRequest, RejectReason, Side, TimeInForce};
use vstd::prelude::*;

verus! {

/// A taker with limit `taker_price` trades at `maker_price`.
pub open spec fn crosses(taker_side: Side, taker_price: u64, maker_price: u64) -> bool {
    match taker_side {
        Side::Bid => taker_price >= maker_price,
        Side::Ask => taker_price <= maker_price,
    }
}

/// The fill of one party of a trade: complete if nothing remains.
pub open spec fn fill_event(
    id: u64,
    fill_qty: u64,
    fill_price: u64,
    remaining_qty: u64,
    origin_ts: u64,
    intent_hash: crate::types::IntentHash,
) -> OrderEvent {
    if remaining_qty == 0 {
        OrderEvent::Fill { id, fill_qty, fill_price, origin_ts, intent_hash }
    } else {
        OrderEvent::PartialFill { id, fill_qty, fill_price, remaining_qty, origin_ts, intent_hash }
    }
}

/// What crossing a line leaves behind.
#[verifier::ext_equal]
pub struct Crossed {
    /// The line after the trades.
    pub line: Seq<Entry>,
    /// The quantity of the taker that found no match.
    pub remaining: u64,
    /// The events of the trades: for each one the taker's, then the maker's.
    pub events: Seq<OrderEvent>,
    /// The handles given back by the consumed makers.
    pub freed: Seq<ArenaIdx>,
}

/// The quantity traded between a taker with `remaining` and `maker`.
pub open spec fn traded(remaining: u64, maker: Order) -> u64 {
    if remaining <= maker.quantity {
        remaining
    } else {
        maker.quantity
    }
}

/// The two events of a trade.
pub open spec fn trade_events(
    req: OrderRequest,
    order_id: u64,
    remaining: u64,
    maker: Order,
) -> Seq<OrderEvent> {
    let qty = traded(remaining, maker);
    seq![
        fill_event(
            order_id,
            qty,
            maker.price,
            (remaining - qty) as u64,
            req.origin_ts,
            req.intent_hash,
        ),
        fill_event(
            maker.order_id.0,
            qty,
            maker.price,
            (maker.quantity - qty) as u64,
            req.origin_ts,
            maker.intent_hash,
        ),
    ]
}

/// Trade `remaining` of a request against a line, first order first.
pub open spec fn cross(
    req: OrderRequest,
    order_id: u64,
    line: Seq<Entry>,
    remaining: u64,
) -> Crossed
    decreases line.len(),
{
    if remaining == 0 || line.len() == 0 || !crosses(req.side, req.price, line[0].order.price) {
        Crossed { line, remaining, events: Seq::empty(), freed: Seq::empty() }
    } else {
        let maker = line[0].order;
        let qty = traded(remaining, maker);
        let events = trade_events(req, order_id, remaining, maker);
        if qty == maker.quantity {
            let rest = cross(req, order_id, line.skip(1), (remaining - qty) as u64);
            Crossed {
                line: rest.line,
                remaining: rest.remaining,
                events: events + rest.events,
                freed: seq![line[0].handle.bumped()] + rest.freed,
            }
        } else {
            Crossed {
                line: line.update(0, model::shrunk(line[0], qty)),
                remaining: 0,
                events,
                freed: Seq::empty(),
            }
        }
    }
}

/// The total quantity of a line that a taker can trade with.
pub open spec fn liquidity(taker_side: Side, taker_price: u64, line: Seq<Entry>) -> nat
    decreases line.len(),
{
    if line.len() == 0 {
        0
    } else {
        let last = line.last().order;
        liquidity(taker_side, taker_price, line.drop_last()) + if crosses(
            taker_side,
            taker_price,
            last.price,
        ) {
            last.quantity as nat
        } else {
            0
        }
    }
}

/// The total quantity of the levels that a taker can trade with.
pub open spec fn level_liquidity(
    taker_side: Side,
    taker_price: u64,
    levels: Seq<(u64, nat)>,
) -> nat
    decreases levels.len(),
{
    if levels.len() == 0 {
        0
    } else {
        level_liquidity(taker_side, taker_price, levels.drop_last()) + if crosses(
            taker_side,
            taker_price,
            levels.last().0,
        ) {
            levels.last().1
        } else {
            0
        }
    }
}

/// Summing by levels or by orders comes to the same.
proof fn lemma_level_liquidity(taker_side: Side, taker_price: u64, line: Seq<Entry>)
    ensures
        level_liquidity(taker_side, taker_price, model::depth(line)) == liquidity(
            taker_side,
            taker_price,
            line,
        ),
    decreases line.len(),
{
    if line.len() > 0 {
        let front = line.drop_last();
        lemma_level_liquidity(taker_side, taker_price, front);
        let levels = model::depth(front);
        let last = line.last().order;
        let after = model::depth(line);
        if levels.len() > 0 && levels.last().0 == last.price {
            assert(after.drop_last() =~= levels.drop_last());
        } else {
            assert(after.drop_last() =~= levels);
        }
    }
}

/// The levels of a line come best first, and the last one has the price of the
/// last order.
proof fn lemma_depth_sorted(side: Side, line: Seq<Entry>)
    requires
        model::line_wf(side, line),
    ensures
        model::depth(line).len() == 0 <==> line.len() == 0,
        line.len() > 0 ==> model::depth(line).last().0 == line.last().order.price,
        forall|i: int, j: int|
            0 <= i < j < model::depth(line).len() ==> !model::better(
                side,
                (#[trigger] model::depth(line)[j]).0,
                (#[trigger] model::depth(line)[i]).0,
            ),
    decreases line.len(),
{
    if line.len() > 0 {
        let front = line.drop_last();
        assert(model::line_wf(side, front));
        lemma_depth_sorted(side, front);
        let levels = model::depth(front);
        let after = model::depth(line);
        if front.len() > 0 {
            let n = line.len() - 1;
            assert(!model::better(side, line[n].order.price, line[n - 1].order.price));
            assert(levels.last().0 == line[n - 1].order.price);
        }
        assert forall|i: int, j: int| 0 <= i < j < after.len() implies !model::better(
            side,
            (#[trigger] after[j]).0,
            (#[trigger] after[i]).0,
        ) by {
            assert(after[i].0 == levels[i].0);
            if j < levels.len() {
                assert(after[j].0 == levels[j].0);
            } else {
                let m = levels.len() - 1;
                if i < m {
                    assert(!model::better(side, levels[m].0, levels[i].0));
                }
            }
        }
    }
}

/// Whether levels sorted best first hold at least `required` at prices that the
/// taker crosses.
fn liquidity_reaches(
    levels: &Vec<(u64, u64)>,
    taker_side: Side,
    taker_price: u64,
    required: u64,
) -> (r: bool)
    requires
        required > 0,
        forall|i: int, j: int|
            0 <= i < j < levels.len() ==> !model::better(
                model::opposite_side(taker_side),
                (#[trigger] levels[j]).0,
                (#[trigger] levels[i]).0,
            ),
    ensures
        r == (level_liquidity(taker_side, taker_price, model::widened(levels@)) >= required),
{
    let ghost all = model::widened(levels@);
    let mut acc: u64 = 0;
    let mut i: usize = 0;
    while i < levels.len()
        invariant
            i <= levels.len(),
            all == model::widened(levels@),
            acc < required,
            acc == level_liquidity(taker_side, taker_price, all.take(i as int)),
            forall|i: int, j: int|
                0 <= i < j < levels.len() ==> !model::better(
                    model::opposite_side(taker_side),
                    (#[trigger] levels[j]).0,
                    (#[trigger] levels[i]).0,
                ),
        decreases levels.len() - i,
    {
        let (price, qty) = levels[i];
        if !crossing(taker_side, taker_price, price) {
            proof {
                lemma_uncrossed_tail(taker_side, taker_price, all, i as int);
            }
            return false;
        }
        assert(all.take(i + 1).drop_last() =~= all.take(i as int));
        if qty >= required - acc {
            proof {
                lemma_level_liquidity_prefix(taker_side, taker_price, all, i + 1);
            }
            return true;
        }
        acc = acc + qty;
        i = i + 1;
    }
    assert(all.take(i as int) =~= all);
    false
}

proof fn lemma_level_liquidity_prefix(
    taker_side: Side,
    taker_price: u64,
    levels: Seq<(u64, nat)>,
    n: int,
)
    requires
        0 <= n <= levels.len(),
    ensures
        level_liquidity(taker_side, taker_price, levels.take(n)) <= level_liquidity(
            taker_side,
            taker_price,
            levels,
        ),
    decreases levels.len() - n,
{
    if n < levels.len() {
        lemma_level_liquidity_prefix(taker_side, taker_price, levels, n + 1);
        assert(levels.take(n + 1).drop_last() =~= levels.take(n));
    } else {
        assert(levels.take(n) =~= levels);
    }
}

/// Behind a level that does not cross no level does.
proof fn lemma_uncrossed_tail(
    taker_side: Side,
    taker_price: u64,
    levels: Seq<(u64, nat)>,
    n: int,
)
    requires
        0 <= n < levels.len(),
        !crosses(taker_side, taker_price, levels[n].0),
        forall|i: int, j: int|
            0 <= i < j < levels.len() ==> !model::better(
                model::opposite_side(taker_side),
                (#[trigger] levels[j]).0,
                (#[trigger] levels[i]).0,
            ),
    ensures
        level_liquidity(taker_side, taker_price, levels) == level_liquidity(
            taker_side,
            taker_price,
            levels.take(n),
        ),
    decreases levels.len(),
{
    let front = levels.drop_last();
    let m = levels.len() - 1;
    if n < m {
        assert(!model::better(model::opposite_side(taker_side), levels[m].0, levels[n].0));
        lemma_uncrossed_tail(taker_side, taker_price, front, n);
        assert(front.take(n) =~= levels.take(n));
    } else {
        assert(levels.take(n) =~= front);
    }
}

/// The other side.
fn opposite(side: Side) -> (r: Side)
    ensures
        r == model::opposite_side(side),
{
    match side {
        Side::Ask => Side::Bid,
        Side::Bid => Side::Ask,
    }
}

fn crossing(taker_side: Side, taker_price: u64, maker_price: u64) -> (r: bool)
    ensures
        r == crosses(taker_side, taker_price, maker_price),
{
    match taker_side {
        Side::Bid => taker_price >= maker_price,
        Side::Ask => taker_price <= maker_price,
    }
}

/// Whether the opposite side can fill the whole request at crossing prices.
/// Looks at levels, not at orders.
fn has_sufficient_liquidity(book: &OrderBook, req: &OrderRequest) -> (r: bool)
    requires
        book.wf(),
        req.quantity > 0,
    ensures
        r == (liquidity(req.side, req.price, book@.side(model::opposite_side(req.side)))
            >= req.quantity),
{
    let ghost line = book@.side(model::opposite_side(req.side));
    let levels = match req.side {
        Side::Bid => book.ask_depth(usize::MAX),
        Side::Ask => book.bid_depth(usize::MAX),
    };
    proof {
        book.lemma_model();
        lemma_depth_len(line);
        assert(model::widened(levels@) == model::depth(line));
        lemma_depth_sorted(model::opposite_side(req.side), line);
        lemma_level_liquidity(req.side, req.price, line);
        assert forall|i: int, j: int| 0 <= i < j < levels.len() implies !model::better(
            model::opposite_side(req.side),
            (#[trigger] levels[j]).0,
            (#[trigger] levels[i]).0,
        ) by {
            assert(model::widened(levels@)[i].0 == levels[i].0);
            assert(model::widened(levels@)[j].0 == levels[j].0);
        }
    }
    liquidity_reaches(&levels, req.side, req.price, req.quantity)
}

/// There are no more levels than orders.
proof fn lemma_depth_len(line: Seq<Entry>)
    ensures
        model::depth(line).len() <= line.len(),
    decreases line.len(),
{
    if line.len() > 0 {
        lemma_depth_len(line.drop_last());
    }
}

/// The book after the trades of a request.
pub open spec fn crossed_book(req: OrderRequest, order_id: u64, book: BookModel) -> BookModel {
    let opposite = model::opposite_side(req.side);
    let c = cross(req, order_id, book.side(opposite), req.quantity);
    BookModel { spare: book.spare + c.freed, ..book.with_side(opposite, c.line) }
}

/// Trade a request against the opposite side one resting order at a time, at
/// the resting order's price; gives back the quantity that found no match.
fn cross_loop<S: EventSink>(
    book: &mut OrderBook,
    req: &OrderRequest,
    order_id: u64,
    out: &mut S,
) -> (remaining: u64)
    requires
        old(book).wf(),
    ensures
        final(book).wf(),
        final(book).instrument() == old(book).instrument(),
        final(book).capacity() == old(book).capacity(),
        final(book)@ == crossed_book(*req, order_id, old(book)@),
        ({
            let opposite = model::opposite_side(req.side);
            let c = cross(*req, order_id, old(book)@.side(opposite), req.quantity);
            &&& remaining == c.remaining
            &&& final(out).emitted() == old(out).emitted() + c.events
        }),
{
    let opposite = opposite(req.side);
    let ghost whole = cross(*req, order_id, book@.side(opposite), req.quantity);
    let ghost mut done: Seq<OrderEvent> = Seq::empty();
    let ghost mut freed: Seq<ArenaIdx> = Seq::empty();
    let mut remaining: u64 = req.quantity;
    assert(whole.events =~= done + whole.events);
    assert(whole.freed =~= freed + whole.freed);
    assert(out.emitted() =~= old(out).emitted() + done);
    assert(book@ =~= BookModel {
        spare: old(book)@.spare + freed,
        ..old(book)@.with_side(opposite, book@.side(opposite))
    });
    while remaining > 0
        invariant_except_break
            opposite == model::opposite_side(req.side),
            book.wf(),
            book.instrument() == old(book).instrument(),
            book.capacity() == old(book).capacity(),
            book@ == (BookModel {
                spare: old(book)@.spare + freed,
                ..old(book)@.with_side(opposite, book@.side(opposite))
            }),
            out.emitted() == old(out).emitted() + done,
            ({
                let c = cross(*req, order_id, book@.side(opposite), remaining);
                &&& whole.line == c.line
                &&& whole.remaining == c.remaining
                &&& whole.events == done + c.events
                &&& whole.freed == freed + c.freed
            }),
        ensures
            book.wf(),
            book.instrument() == old(book).instrument(),
            book.capacity() == old(book).capacity(),
            book@ == (BookModel {
                spare: old(book)@.spare + whole.freed,
                ..old(book)@.with_side(opposite, whole.line)
            }),
            out.emitted() == old(out).emitted() + whole.events,
            remaining == whole.remaining,
        decreases remaining, book@.side(opposite).len(),
    {
        let ghost line = book@.side(opposite);
        let ghost c = cross(*req, order_id, line, remaining);
        let (maker_price, maker_qty, maker_id, maker_intent) = match book.peek_top(opposite) {
            Some(top) => {
                if !crossing(req.side, req.price, top.price) {
                    assert(whole.events =~= done);
                    assert(whole.freed =~= freed);
                    break;
                }
                (top.price, top.order.quantity, top.order.order_id.0, top.order.intent_hash)
            },
            None => {
                assert(whole.events =~= done);
                assert(whole.freed =~= freed);
                break;
            },
        };
        let fill_qty: u64 = if remaining <= maker_qty {
            remaining
        } else {
            maker_qty
        };
        let fill_price: u64 = maker_price;
        let maker_remaining: u64 = maker_qty - fill_qty;
        let ghost events = trade_events(*req, order_id, remaining, line[0].order);
        remaining = remaining - fill_qty;

        if remaining == 0 {
            out.emit(
                OrderEvent::Fill {
                    id: order_id,
                    fill_qty,
                    fill_price,
                    origin_ts: req.origin_ts,
                    intent_hash: req.intent_hash,
                },
            );
        } else {
            out.emit(
                OrderEvent::PartialFill {
                    id: order_id,
                    fill_qty,
                    fill_price,
                    remaining_qty: remaining,
                    origin_ts: req.origin_ts,
                    intent_hash: req.intent_hash,
                },
            );
        }

        if maker_remaining == 0 {
            out.emit(
                OrderEvent::Fill {
                    id: maker_id,
                    fill_qty,
                    fill_price,
                    origin_ts: req.origin_ts,
                    intent_hash: maker_intent,
                },
            );
            book.pop_top(opposite);
            proof {
                freed = freed.push(line[0].handle.bumped());
                assert(line.remove(0) =~= line.skip(1));
            }
        } else {
            out.emit(
                OrderEvent::PartialFill {
                    id: maker_id,
                    fill_qty,
                    fill_price,
                    remaining_qty: maker_remaining,
                    origin_ts: req.origin_ts,
                    intent_hash: maker_intent,
                },
            );
            book.reduce_top(opposite, fill_qty);
        }
        proof {
            let before = done;
            done = done + events;
            assert(out.emitted() =~= old(out).emitted() + done);
            let c2 = cross(*req, order_id, book@.side(opposite), remaining);
            assert(whole.events =~= done + c2.events);
            assert(whole.freed =~= freed + c2.freed);
            assert(book@ =~= BookModel {
                spare: old(book)@.spare + freed,
                ..old(book)@.with_side(opposite, book@.side(opposite))
            });
            if remaining == 0 {
                assert(c2.events =~= Seq::empty());
                assert(done + c2.events =~= done);
                assert(freed + c2.freed =~= freed);
            }
        }
    }
    remaining
}

/// The order that a request leaves on the book.
pub open spec fn resting_order(req: OrderRequest, order_id: u64, remaining: u64) -> Order {
    Order {
        order_id: OrderId(order_id),
        price: req.price,
        quantity: remaining,
        origin_ts: req.origin_ts,
        instrument_id: req.instrument_id,
        side: req.side,
        order_type: req.order_type,
        tif: req.tif,
        _padding: 0,
        intent_hash: req.intent_hash,
    }
}

/// The request is fill-or-kill and the opposite side cannot fill it.
pub open spec fn killed(req: OrderRequest, book: BookModel) -> bool {
    req.tif == TimeInForce::FOK && liquidity(
        req.side,
        req.price,
        book.side(model::opposite_side(req.side)),
    ) < req.quantity
}

/// What a valid request does to its book: the next state and the events.
pub open spec fn matched(req: OrderRequest, order_id: u64, book: BookModel) -> (
    BookModel,
    Seq<OrderEvent>,
) {
    let c = cross(req, order_id, book.side(model::opposite_side(req.side)), req.quantity);
    let after = crossed_book(req, order_id, book);
    if killed(req, book) {
        (
            book,
            seq![events::reject_event(RejectReason::InsufficientLiquidity, req.quantity, req)],
        )
    } else if c.remaining == 0 {
        (after, c.events)
    } else {
        match req.tif {
            TimeInForce::GTC => if after.has_intent(req.intent_hash) {
                (
                    after,
                    c.events.push(
                        events::reject_event(RejectReason::DuplicateIntent, c.remaining, req),
                    ),
                )
            } else if after.spare.len() == 0 {
                (
                    after,
                    c.events.push(
                        events::reject_event(RejectReason::SystemAtCapacity, c.remaining, req),
                    ),
                )
            } else {
                let resting = resting_order(req, order_id, c.remaining);
                (after.joined(resting), c.events.push(OrderEvent::New(resting)))
            },
            TimeInForce::IOC => (
                after,
                c.events.push(
                    events::reject_event(RejectReason::InsufficientLiquidity, c.remaining, req),
                ),
            ),
            TimeInForce::FOK => (after, c.events),
        }
    }
}

/// If the request leaves an order on the book, the total of that order's price
/// level still fits a machine word.
pub open spec fn level_has_room(req: OrderRequest, order_id: u64, book: BookModel) -> bool {
    let c = cross(req, order_id, book.side(model::opposite_side(req.side)), req.quantity);
    let after = crossed_book(req, order_id, book);
    req.tif == TimeInForce::GTC && c.remaining > 0 && !after.has_intent(req.intent_hash)
        && after.spare.len() > 0 ==> model::total(
        model::level_of(book.side(req.side), req.price),
    ) + c.remaining <= u64::MAX
}

/// The first order of a line counts first.
proof fn lemma_liquidity_front(taker_side: Side, taker_price: u64, line: Seq<Entry>)
    requires
        line.len() > 0,
    ensures
        liquidity(taker_side, taker_price, line) == liquidity(taker_side, taker_price, line.skip(1))
            + if crosses(taker_side, taker_price, line[0].order.price) {
            line[0].order.quantity as nat
        } else {
            0
        },
    decreases line.len(),
{
    if line.len() == 1 {
        assert(line.drop_last() =~= Seq::empty());
        assert(line.skip(1) =~= Seq::empty());
    } else {
        lemma_liquidity_front(taker_side, taker_price, line.drop_last());
        assert(line.drop_last().skip(1) =~= line.skip(1).drop_last());
    }
}

/// Nothing crosses if the first order of a line does not.
proof fn lemma_no_liquidity(taker_side: Side, taker_price: u64, line: Seq<Entry>)
    requires
        model::line_wf(model::opposite_side(taker_side), line),
        line.len() > 0 ==> !crosses(taker_side, taker_price, line[0].order.price),
    ensures
        liquidity(taker_side, taker_price, line) == 0,
    decreases line.len(),
{
    if line.len() > 0 {
        let front = line.drop_last();
        assert(model::line_wf(model::opposite_side(taker_side), front));
        if front.len() > 0 {
            assert(front[0] == line[0]);
            let n = line.len() - 1;
            assert(!model::better(
                model::opposite_side(taker_side),
                line[n].order.price,
                line[0].order.price,
            ));
        }
        lemma_no_liquidity(taker_side, taker_price, front);
    }
}

/// A tail of a line in priority order is in priority order.
proof fn lemma_skip_line(side: Side, line: Seq<Entry>)
    requires
        model::line_wf(side, line),
        line.len() > 0,
    ensures
        model::line_wf(side, line.skip(1)),
{
    let rest = line.skip(1);
    assert forall|i: int| 0 <= i < rest.len() implies (#[trigger] rest[i]).order.side == side by {
        assert(rest[i] == line[i + 1]);
    }
    assert forall|i: int, j: int| 0 <= i < j < rest.len() implies !model::better(
        side,
        (#[trigger] rest[j]).order.price,
        (#[trigger] rest[i]).order.price,
    ) by {
        assert(rest[i] == line[i + 1] && rest[j] == line[j + 1]);
    }
}

/// A taker is left with exactly what exceeds the liquidity it can reach. So a
/// fill-or-kill request that passes its check fills completely.
pub proof fn law_remainder_is_what_liquidity_lacks(
    req: OrderRequest,
    order_id: u64,
    line: Seq<Entry>,
    remaining: u64,
)
    requires
        model::line_wf(model::opposite_side(req.side), line),
    ensures
        ({
            let reach = liquidity(req.side, req.price, line);
            cross(req, order_id, line, remaining).remaining == if reach >= remaining {
                0
            } else {
                remaining - reach
            }
        }),
    decreases line.len(),
{
    if remaining == 0 {
    } else if line.len() == 0 || !crosses(req.side, req.price, line[0].order.price) {
        lemma_no_liquidity(req.side, req.price, line);
    } else {
        lemma_liquidity_front(req.side, req.price, line);
        lemma_skip_line(model::opposite_side(req.side), line);
        let qty = traded(remaining, line[0].order);
        law_remainder_is_what_liquidity_lacks(
            req,
            order_id,
            line.skip(1),
            (remaining - qty) as u64,
        );
    }
}

/// Trading keeps the opposite line in priority order, does not improve its best
/// price, and stops only where the taker is exhausted or out of its price.
pub proof fn law_crossing_consumes_best_first(
    req: OrderRequest,
    order_id: u64,
    line: Seq<Entry>,
    remaining: u64,
)
    requires
        model::line_wf(model::opposite_side(req.side), line),
    ensures
        ({
            let side = model::opposite_side(req.side);
            let c = cross(req, order_id, line, remaining);
            &&& model::line_wf(side, c.line)
            &&& c.line.len() > 0 ==> line.len() > 0 && !model::better(
                side,
                c.line[0].order.price,
                line[0].order.price,
            )
            &&& c.remaining > 0 && c.line.len() > 0 ==> !crosses(
                req.side,
                req.price,
                c.line[0].order.price,
            )
        }),
    decreases line.len(),
{
    let side = model::opposite_side(req.side);
    if remaining != 0 && line.len() > 0 && crosses(req.side, req.price, line[0].order.price) {
        let qty = traded(remaining, line[0].order);
        let c = cross(req, order_id, line, remaining);
        if qty == line[0].order.quantity {
            lemma_skip_line(side, line);
            law_crossing_consumes_best_first(req, order_id, line.skip(1), (remaining - qty) as u64);
            if c.line.len() > 0 {
                assert(line.skip(1)[0] == line[1]);
                assert(!model::better(side, line[1].order.price, line[0].order.price));
            }
        } else {
            assert forall|i: int| 0 <= i < c.line.len() implies {
                &&& (#[trigger] c.line[i]).order.side == line[i].order.side
                &&& c.line[i].order.price == line[i].order.price
            } by {}
        }
    }
}

/// A book that is not crossed is not crossed after a request either: the
/// request trades all it can before anything of it rests.
pub proof fn law_matching_leaves_no_crossed_book(
    req: OrderRequest,
    order_id: u64,
    book: BookModel,
)
    requires
        book.wf(),
        !book.crossed(),
    ensures
        !matched(req, order_id, book).0.crossed(),
{
    let opposite = model::opposite_side(req.side);
    let line = book.side(opposite);
    let c = cross(req, order_id, line, req.quantity);
    let after = crossed_book(req, order_id, book);
    law_crossing_consumes_best_first(req, order_id, line, req.quantity);
    assert(after.side(opposite) == c.line);
    assert(after.side(req.side) == book.side(req.side));
    assert(!after.crossed());
    let resting = resting_order(req, order_id, c.remaining);
    let own = after.side(req.side);
    let n = model::rank(req.side, own, req.price);
    crate::orderbook::laws::law_newcomer_keeps_priority(req.side, own, req.price);
    let joined = after.joined(resting);
    assert(joined.side(opposite) == c.line);
    if n == 0 {
        assert(joined.side(req.side)[0].order == resting);
    } else {
        assert(joined.side(req.side)[0] == own[0]);
    }
}

/// Match a valid request against its book and handle what is left by its time
/// in force.
pub(crate) fn match_limit<S: EventSink>(
    book: &mut OrderBook,
    req: &OrderRequest,
    order_id: u64,
    out: &mut S,
)
    requires
        old(book).wf(),
        req.quantity > 0,
        level_has_room(*req, order_id, old(book)@),
    ensures
        final(book).wf(),
        final(book).instrument() == old(book).instrument(),
        final(book).capacity() == old(book).capacity(),
        final(book)@ == matched(*req, order_id, old(book)@).0,
        final(out).emitted() == old(out).emitted() + matched(*req, order_id, old(book)@).1,
{
    let ghost opposite_line = book@.side(model::opposite_side(req.side));
    proof {
        book.lemma_model();
        law_remainder_is_what_liquidity_lacks(*req, order_id, opposite_line, req.quantity);
    }
    if req.tif == TimeInForce::FOK && !has_sufficient_liquidity(book, req) {
        push_reject(RejectReason::InsufficientLiquidity, req.quantity, req, out);
        assert(out.emitted() =~= old(out).emitted() + matched(*req, order_id, old(book)@).1);
        return;
    }
    let remaining: u64 = cross_loop(book, req, order_id, out);
    if remaining == 0 {
        return;
    }
    match req.tif {
        TimeInForce::GTC => {
            let resting = Order {
                order_id: OrderId(order_id),
                price: req.price,
                quantity: remaining,
                origin_ts: req.origin_ts,
                instrument_id: req.instrument_id,
                side: req.side,
                order_type: req.order_type,
                tif: req.tif,
                _padding: 0,
                intent_hash: req.intent_hash,
            };
            assert(book@.side(req.side) == old(book)@.side(req.side));
            match book.insert(resting) {
                Ok(_) => out.emit(OrderEvent::New(resting)),
                Err(InsertError::ArenaFull) => {
                    push_reject(RejectReason::SystemAtCapacity, remaining, req, out);
                },
                Err(InsertError::DuplicateIntent) => {
                    push_reject(RejectReason::DuplicateIntent, remaining, req, out);
                },
            }
        },
        TimeInForce::IOC => {
            push_reject(RejectReason::InsufficientLiquidity, remaining, req, out);
        },
        TimeInForce::FOK => {
            // The check above has shown that a fill-or-kill request fills.
            assert(false);
        },
    }
    assert(out.emitted() =~= old(out).emitted() + matched(*req, order_id, old(book)@).1);
}

} // verus!
