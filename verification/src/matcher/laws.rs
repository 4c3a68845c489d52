//! Laws of matching and of the engine.
use super::engine;
use super::engine::EngineModel;
use super::events;
use super::matching;
use crate::orderbook::model;
use crate::orderbook::{BookModel, Entry};
use crate::types::{OrderEvent, OrderRequest, RejectReason, RequestType, TimeInForce};
use vstd::prelude::*;

verus! {

/// The event is a fill, complete or partial.
pub open spec fn is_fill(event: OrderEvent) -> bool {
    event is Fill || event is PartialFill
}

/// The quantity of a fill.
pub open spec fn fill_qty(event: OrderEvent) -> nat {
    match event {
        OrderEvent::Fill { fill_qty, .. } => fill_qty as nat,
        OrderEvent::PartialFill { fill_qty, .. } => fill_qty as nat,
        _ => 0,
    }
}

/// The price of a fill.
pub open spec fn fill_price(event: OrderEvent) -> u64 {
    match event {
        OrderEvent::Fill { fill_price, .. } => fill_price,
        OrderEvent::PartialFill { fill_price, .. } => fill_price,
        _ => 0,
    }
}

/// The order id of a fill.
pub open spec fn fill_id(event: OrderEvent) -> u64 {
    match event {
        OrderEvent::Fill { id, .. } => id,
        OrderEvent::PartialFill { id, .. } => id,
        _ => 0,
    }
}

/// The sum of the fills at even places, which are the taker's.
pub open spec fn taker_filled(events: Seq<OrderEvent>) -> nat
    decreases events.len(),
{
    if events.len() < 2 {
        0
    } else {
        fill_qty(events[0]) + taker_filled(events.skip(2))
    }
}

/// Trading conserves quantity: what the taker fills is what it asked for less
/// what is left, and the opposite side loses exactly that much.
pub proof fn law_trades_conserve_quantity(
    req: OrderRequest,
    order_id: u64,
    line: Seq<Entry>,
    remaining: u64,
)
    ensures
        ({
            let c = matching::cross(req, order_id, line, remaining);
            &&& c.remaining <= remaining
            &&& taker_filled(c.events) == remaining - c.remaining
            &&& model::total(c.line) == model::total(line) - (remaining - c.remaining)
        }),
    decreases line.len(),
{
    let c = matching::cross(req, order_id, line, remaining);
    if remaining != 0 && line.len() > 0 && matching::crosses(
        req.side,
        req.price,
        line[0].order.price,
    ) {
        let maker = line[0].order;
        let qty = matching::traded(remaining, maker);
        let pair = matching::trade_events(req, order_id, remaining, maker);
        if qty == maker.quantity {
            let rest = matching::cross(req, order_id, line.skip(1), (remaining - qty) as u64);
            law_trades_conserve_quantity(req, order_id, line.skip(1), (remaining - qty) as u64);
            assert(c.events.skip(2) =~= rest.events);
            assert(c.events[0] == pair[0]);
            model::lemma_total_remove(line, 0);
            assert(line.remove(0) =~= line.skip(1));
        } else {
            assert(c.events.skip(2) =~= Seq::empty());
            assert(taker_filled(c.events.skip(2)) == 0);
            model::lemma_total_shrunk(line, qty);
        }
    }
}

/// Resting orders trade one after the other in the order of the line. Every trade
/// prints at the resting order's price, within the taker's limit, and reports the
/// same quantity and price to both parties, the taker first.
pub proof fn law_trades_print_at_maker_price(
    req: OrderRequest,
    order_id: u64,
    line: Seq<Entry>,
    remaining: u64,
)
    ensures
        ({
            let ev = matching::cross(req, order_id, line, remaining).events;
            &&& ev.len() % 2 == 0
            &&& ev.len() <= 2 * line.len()
            &&& forall|k: int|
                #![trigger ev[2 * k]]
                0 <= k < ev.len() / 2 ==> {
                    &&& is_fill(ev[2 * k]) && is_fill(ev[2 * k + 1])
                    &&& fill_price(ev[2 * k]) == line[k].order.price
                    &&& fill_price(ev[2 * k + 1]) == line[k].order.price
                    &&& fill_qty(ev[2 * k]) == fill_qty(ev[2 * k + 1])
                    &&& fill_id(ev[2 * k]) == order_id
                    &&& fill_id(ev[2 * k + 1]) == line[k].order.order_id.0
                    &&& matching::crosses(req.side, req.price, line[k].order.price)
                }
        }),
    decreases line.len(),
{
    let c = matching::cross(req, order_id, line, remaining);
    if remaining != 0 && line.len() > 0 && matching::crosses(
        req.side,
        req.price,
        line[0].order.price,
    ) {
        let maker = line[0].order;
        let qty = matching::traded(remaining, maker);
        if qty == maker.quantity {
            let rest = matching::cross(req, order_id, line.skip(1), (remaining - qty) as u64);
            law_trades_print_at_maker_price(req, order_id, line.skip(1), (remaining - qty) as u64);
            assert forall|k: int|
                #![trigger c.events[2 * k]]
                0 <= k < c.events.len() / 2 implies {
                &&& is_fill(c.events[2 * k]) && is_fill(c.events[2 * k + 1])
                &&& fill_price(c.events[2 * k]) == line[k].order.price
                &&& fill_price(c.events[2 * k + 1]) == line[k].order.price
                &&& fill_qty(c.events[2 * k]) == fill_qty(c.events[2 * k + 1])
                &&& fill_id(c.events[2 * k]) == order_id
                &&& fill_id(c.events[2 * k + 1]) == line[k].order.order_id.0
                &&& matching::crosses(req.side, req.price, line[k].order.price)
            } by {
                if k > 0 {
                    assert(c.events[2 * k] == rest.events[2 * (k - 1)]);
                    assert(c.events[2 * k + 1] == rest.events[2 * (k - 1) + 1]);
                    assert(line.skip(1)[k - 1] == line[k]);
                }
            }
        }
    }
}

/// Fill-or-kill is all or nothing: either the book stays as it is and the whole
/// quantity is refused, or the request fills completely and only fills come out.
pub proof fn law_fill_or_kill_is_atomic(req: OrderRequest, order_id: u64, book: BookModel)
    requires
        book.wf(),
        req.tif == TimeInForce::FOK,
    ensures
        ({
            let r = matching::matched(req, order_id, book);
            let line = book.side(model::opposite_side(req.side));
            if matching::liquidity(req.side, req.price, line) < req.quantity {
                &&& r.0 == book
                &&& r.1 == seq![
                    events::reject_event(RejectReason::InsufficientLiquidity, req.quantity, req),
                ]
            } else {
                &&& taker_filled(r.1) == req.quantity
                &&& r.0.side(req.side) == book.side(req.side)
                &&& forall|i: int| 0 <= i < r.1.len() ==> is_fill(#[trigger] r.1[i])
            }
        }),
{
    let line = book.side(model::opposite_side(req.side));
    matching::law_remainder_is_what_liquidity_lacks(req, order_id, line, req.quantity);
    law_trades_conserve_quantity(req, order_id, line, req.quantity);
    lemma_crossing_fills(req, order_id, line, req.quantity);
}

/// Immediate-or-cancel never rests: its own side of the book stays as it is, and
/// what did not fill is refused.
pub proof fn law_immediate_or_cancel_never_rests(
    req: OrderRequest,
    order_id: u64,
    book: BookModel,
)
    requires
        req.tif == TimeInForce::IOC,
    ensures
        ({
            let r = matching::matched(req, order_id, book);
            let c = matching::cross(
                req,
                order_id,
                book.side(model::opposite_side(req.side)),
                req.quantity,
            );
            &&& r.0.side(req.side) == book.side(req.side)
            &&& r.1 == if c.remaining == 0 {
                c.events
            } else {
                c.events.push(
                    events::reject_event(RejectReason::InsufficientLiquidity, c.remaining, req),
                )
            }
        }),
{
}

/// A good-till-cancelled request that finds no match rests whole.
pub proof fn law_unmatched_order_rests_whole(req: OrderRequest, order_id: u64, book: BookModel)
    requires
        req.tif == TimeInForce::GTC,
        req.quantity > 0,
        !book.has_intent(req.intent_hash),
        book.spare.len() > 0,
        ({
            let line = book.side(model::opposite_side(req.side));
            line.len() == 0 || !matching::crosses(req.side, req.price, line[0].order.price)
        }),
    ensures
        ({
            let resting = matching::resting_order(req, order_id, req.quantity);
            &&& matching::matched(req, order_id, book).0 == book.joined(resting)
            &&& matching::matched(req, order_id, book).1 == seq![OrderEvent::New(resting)]
        }),
{
    let after = matching::crossed_book(req, order_id, book);
    assert(after =~= book);
    let resting = matching::resting_order(req, order_id, req.quantity);
    assert(matching::matched(req, order_id, book).1 =~= seq![OrderEvent::New(resting)]);
}

/// A refused request changes nothing, and an accepted one uses up exactly one
/// order id. Books of other instruments are never touched.
pub proof fn law_requests_are_local(m: EngineModel, req: OrderRequest)
    requires
        engine::feasible(m, req),
    ensures
        ({
            let after = engine::step(m, req).0;
            &&& after.next_order_id == m.next_order_id + if engine::accepted(m, req) {
                1int
            } else {
                0int
            }
            &&& after.books.dom() == m.books.dom()
            &&& forall|id: u32|
                id != req.instrument_id && m.books.contains_key(id) ==> #[trigger] after.books[id]
                    == m.books[id]
            &&& req.request_type == RequestType::New && !engine::accepted(m, req) ==> after == m
        }),
{
    let after = engine::step(m, req).0;
    assert(after.books.dom() =~= m.books.dom());
}

/// Every event of a crossing is a fill.
proof fn lemma_crossing_fills(req: OrderRequest, order_id: u64, line: Seq<Entry>, remaining: u64)
    ensures
        ({
            let ev = matching::cross(req, order_id, line, remaining).events;
            forall|i: int| 0 <= i < ev.len() ==> is_fill(#[trigger] ev[i])
        }),
{
    law_trades_print_at_maker_price(req, order_id, line, remaining);
    let ev = matching::cross(req, order_id, line, remaining).events;
    assert forall|i: int| 0 <= i < ev.len() implies is_fill(#[trigger] ev[i]) by {
        let k = i / 2;
        assert(0 <= k < ev.len() / 2);
        assert(fill_price(ev[2 * k]) == line[k].order.price);
        assert(is_fill(ev[2 * k]) && is_fill(ev[2 * k + 1]));
        assert(i == 2 * k || i == 2 * k + 1);
    }
}

/// An accepted request trades and rests under the id that was next: every fill of
/// the taker, which are the fills at even places, and the order that comes to rest
/// carry it.
pub proof fn law_accepted_request_uses_next_id(m: EngineModel, req: OrderRequest)
    requires
        engine::accepted(m, req),
    ensures
        ({
            let ev = engine::step(m, req).1;
            &&& forall|k: int|
                #![trigger ev[2 * k]]
                0 <= k && 2 * k < ev.len() && is_fill(ev[2 * k]) ==> fill_id(ev[2 * k])
                    == m.next_order_id
            &&& forall|i: int|
                0 <= i < ev.len() ==> (#[trigger] ev[i] matches OrderEvent::New(order)
                    ==> order.order_id.0 == m.next_order_id)
        }),
{
    let book = m.books[req.instrument_id];
    let line = book.side(model::opposite_side(req.side));
    lemma_crossing_fills(req, m.next_order_id, line, req.quantity);
    law_trades_print_at_maker_price(req, m.next_order_id, line, req.quantity);
    let c = matching::cross(req, m.next_order_id, line, req.quantity);
    let ev = engine::step(m, req).1;
    let fills = c.events;
    assert forall|k: int|
        #![trigger ev[2 * k]]
        0 <= k && 2 * k < ev.len() && is_fill(ev[2 * k]) implies fill_id(ev[2 * k])
        == m.next_order_id by {
        if !matching::killed(req, book) && 2 * k < fills.len() {
            assert(ev[2 * k] == fills[2 * k]);
        }
    }
    assert forall|i: int| 0 <= i < ev.len() implies (#[trigger] ev[i] matches OrderEvent::New(order)
        ==> order.order_id.0 == m.next_order_id) by {
        if !matching::killed(req, book) && i < fills.len() {
            assert(ev[i] == fills[i]);
        }
    }
}

/// Order ids ascend: of two accepted requests the later one gets the greater id.
pub proof fn law_order_ids_ascend(m: EngineModel, first: OrderRequest, second: OrderRequest)
    requires
        engine::feasible(m, first),
        engine::accepted(m, first),
        engine::feasible(engine::step(m, first).0, second),
        engine::accepted(engine::step(m, first).0, second),
    ensures
        engine::step(m, first).0.next_order_id > m.next_order_id,
        engine::step(engine::step(m, first).0, second).0.next_order_id == m.next_order_id + 2,
{
}

/// What an engine can be asked to do.
pub enum Command {
    AddInstrument { instrument_id: u32, book_capacity: u32 },
    Process { req: OrderRequest },
}

/// The state and the events after a command.
pub open spec fn obeyed(m: EngineModel, command: Command) -> (EngineModel, Seq<OrderEvent>) {
    match command {
        Command::AddInstrument { instrument_id, book_capacity } => (
            engine::registered(m, instrument_id, book_capacity),
            Seq::empty(),
        ),
        Command::Process { req } => engine::step(m, req),
    }
}

/// The engine can carry out the command.
pub open spec fn can_obey(m: EngineModel, command: Command) -> bool {
    match command {
        Command::AddInstrument { .. } => true,
        Command::Process { req } => engine::feasible(m, req),
    }
}

/// The command is a request that creates an order.
pub open spec fn creates_order(m: EngineModel, command: Command) -> bool {
    match command {
        Command::AddInstrument { .. } => false,
        Command::Process { req } => engine::accepted(m, req),
    }
}

/// The state and the events after a log of commands.
pub open spec fn replayed(m: EngineModel, log: Seq<Command>) -> (EngineModel, Seq<OrderEvent>)
    decreases log.len(),
{
    if log.len() == 0 {
        (m, Seq::empty())
    } else {
        let before = replayed(m, log.drop_last());
        let last = obeyed(before.0, log.last());
        (last.0, before.1 + last.1)
    }
}

/// The engine can carry out every command of a log in turn.
pub open spec fn replayable(m: EngineModel, log: Seq<Command>) -> bool
    decreases log.len(),
{
    log.len() > 0 ==> replayable(m, log.drop_last()) && can_obey(
        replayed(m, log.drop_last()).0,
        log.last(),
    )
}

/// How many commands of a log create an order.
pub open spec fn orders_created(m: EngineModel, log: Seq<Command>) -> nat
    decreases log.len(),
{
    if log.len() == 0 {
        0
    } else {
        orders_created(m, log.drop_last()) + if creates_order(
            replayed(m, log.drop_last()).0,
            log.last(),
        ) {
            1nat
        } else {
            0
        }
    }
}

/// Replay: going on from the state that the first part of a log leaves behind
/// ends in the state, and gives the events, of the whole log.
pub proof fn law_replay_can_resume(m: EngineModel, log: Seq<Command>, more: Seq<Command>)
    ensures
        ({
            let half = replayed(m, log);
            let rest = replayed(half.0, more);
            replayed(m, log + more) == (rest.0, half.1 + rest.1)
        }),
    decreases more.len(),
{
    let half = replayed(m, log);
    if more.len() == 0 {
        assert(log + more =~= log);
        assert(half.1 + Seq::<OrderEvent>::empty() =~= half.1);
    } else {
        law_replay_can_resume(m, log, more.drop_last());
        assert((log + more).drop_last() =~= log + more.drop_last());
        let front = replayed(half.0, more.drop_last());
        let last = obeyed(front.0, more.last());
        assert(half.1 + front.1 + last.1 =~= half.1 + (front.1 + last.1));
    }
}

/// Exactly the requests that create an order use up an id, one each, over all
/// instruments and whatever becomes of the order.
pub proof fn law_ids_count_created_orders(m: EngineModel, log: Seq<Command>)
    requires
        replayable(m, log),
    ensures
        replayed(m, log).0.next_order_id == m.next_order_id + orders_created(m, log),
    decreases log.len(),
{
    if log.len() > 0 {
        let front = log.drop_last();
        law_ids_count_created_orders(m, front);
        match log.last() {
            Command::AddInstrument { .. } => {},
            Command::Process { req } => {
                law_requests_are_local(replayed(m, front).0, req);
            },
        }
    }
}

/// Ids are 0, 1, 2 and so on in the order of acceptance: after a log in which `k`
/// requests created an order, the next one that does trades and rests under id
/// `k`.
pub proof fn law_order_ids_number_created_orders(log: Seq<Command>, req: OrderRequest)
    requires
        replayable(engine::initial(), log),
        engine::accepted(replayed(engine::initial(), log).0, req),
    ensures
        ({
            let k = orders_created(engine::initial(), log);
            let ev = engine::step(replayed(engine::initial(), log).0, req).1;
            &&& forall|j: int|
                #![trigger ev[2 * j]]
                0 <= j && 2 * j < ev.len() && is_fill(ev[2 * j]) ==> fill_id(ev[2 * j]) == k
            &&& forall|i: int|
                0 <= i < ev.len() ==> (#[trigger] ev[i] matches OrderEvent::New(order)
                    ==> order.order_id.0 == k)
        }),
{
    law_ids_count_created_orders(engine::initial(), log);
    law_accepted_request_uses_next_id(replayed(engine::initial(), log).0, req);
}

/// The book after a request has traded `remaining` against it.
spec fn traded_book(req: OrderRequest, order_id: u64, book: BookModel, remaining: u64) -> BookModel {
    let opposite = model::opposite_side(req.side);
    let c = matching::cross(req, order_id, book.side(opposite), remaining);
    BookModel { spare: book.spare + c.freed, ..book.with_side(opposite, c.line) }
}

/// Trading keeps a book well-formed.
proof fn lemma_trading_keeps_book(req: OrderRequest, order_id: u64, book: BookModel, remaining: u64)
    requires
        book.wf(),
    ensures
        traded_book(req, order_id, book, remaining).wf(),
    decreases book.side(model::opposite_side(req.side)).len(),
{
    let opposite = model::opposite_side(req.side);
    let line = book.side(opposite);
    let after = traded_book(req, order_id, book, remaining);
    if remaining == 0 || line.len() == 0 || !matching::crosses(
        req.side,
        req.price,
        line[0].order.price,
    ) {
        assert(after =~= book);
    } else {
        let qty = matching::traded(remaining, line[0].order);
        if qty == line[0].order.quantity {
            let next = book.without(opposite, 0);
            crate::orderbook::laws::law_removal_keeps_book(book, opposite, 0);
            assert(next.side(opposite) =~= line.skip(1));
            lemma_trading_keeps_book(req, order_id, next, (remaining - qty) as u64);
            assert(after =~= traded_book(req, order_id, next, (remaining - qty) as u64));
        } else {
            crate::orderbook::laws::law_reduce_keeps_places(book, opposite, qty);
            assert(after =~= book.reduced(opposite, qty));
        }
    }
}

/// A request leaves its book well-formed: the lines in price-time priority, intent
/// hashes and slots unshared, and every handle valid.
pub proof fn law_matching_keeps_book(req: OrderRequest, order_id: u64, book: BookModel)
    requires
        book.wf(),
    ensures
        matching::matched(req, order_id, book).0.wf(),
{
    lemma_trading_keeps_book(req, order_id, book, req.quantity);
    let after = matching::crossed_book(req, order_id, book);
    assert(after =~= traded_book(req, order_id, book, req.quantity));
    let line = book.side(model::opposite_side(req.side));
    let c = matching::cross(req, order_id, line, req.quantity);
    if !after.has_intent(req.intent_hash) && after.spare.len() > 0 {
        crate::orderbook::laws::law_insert_keeps_book(
            after,
            matching::resting_order(req, order_id, c.remaining),
        );
    }
}

/// Every book is well-formed and none is crossed.
pub open spec fn at_rest(m: EngineModel) -> bool {
    forall|id: u32| #[trigger]
        m.books.contains_key(id) ==> m.books[id].wf() && !m.books[id].crossed()
}

/// Carrying out a command leaves every book well-formed and none crossed.
proof fn lemma_command_keeps_rest(m: EngineModel, command: Command)
    requires
        at_rest(m),
    ensures
        at_rest(obeyed(m, command).0),
{
    match command {
        Command::AddInstrument { instrument_id, book_capacity } => {
            let book = engine::empty_book(book_capacity);
            if book_capacity > 0 {
                assert forall|s: crate::types::Side| #[trigger] book.side(s).len() == 0 by {}
                assert(book.wf());
            }
        },
        Command::Process { req } => {
            let book = m.books[req.instrument_id];
            if m.books.contains_key(req.instrument_id) {
                law_matching_keeps_book(req, m.next_order_id, book);
                matching::law_matching_leaves_no_crossed_book(req, m.next_order_id, book);
                if book.has_intent(req.intent_hash) {
                    let at = engine::place_of(book, req.intent_hash);
                    crate::orderbook::laws::law_removal_keeps_book(book, at.0, at.1);
                    engine::lemma_removal_leaves_no_crossed_book(book, at.0, at.1);
                }
            }
        },
    }
}

/// No book is crossed at rest: whatever a new engine is asked to do, after every
/// command each of its books has an empty side or a best bid below its best ask.
pub proof fn law_no_book_is_crossed_at_rest(log: Seq<Command>)
    ensures
        at_rest(replayed(engine::initial(), log).0),
    decreases log.len(),
{
    if log.len() > 0 {
        law_no_book_is_crossed_at_rest(log.drop_last());
        lemma_command_keeps_rest(replayed(engine::initial(), log.drop_last()).0, log.last());
    }
}

/// Cancelling an order that has just come to rest gives back the lines of its
/// book, and the confirmation carries the order's id.
pub proof fn law_cancel_undoes_rest(m: EngineModel, req: OrderRequest, cancel: OrderRequest)
    requires
        engine::accepted(m, req),
        m.next_order_id < u64::MAX,
        m.books[req.instrument_id].wf(),
        req.tif == TimeInForce::GTC,
        !m.books[req.instrument_id].has_intent(req.intent_hash),
        m.books[req.instrument_id].spare.len() > 0,
        ({
            let line = m.books[req.instrument_id].side(model::opposite_side(req.side));
            line.len() == 0 || !matching::crosses(req.side, req.price, line[0].order.price)
        }),
        cancel.request_type == RequestType::Cancel,
        cancel.instrument_id == req.instrument_id,
        cancel.intent_hash == req.intent_hash,
    ensures
        ({
            let rested = engine::step(m, req).0;
            let back = engine::step(rested, cancel);
            let id = req.instrument_id;
            &&& back.0.books[id].bids == m.books[id].bids
            &&& back.0.books[id].asks == m.books[id].asks
            &&& back.1 == seq![events::cancel_event(m.next_order_id, cancel)]
        }),
{
    let id = req.instrument_id;
    let book = m.books[id];
    law_unmatched_order_rests_whole(req, m.next_order_id, book);
    let resting = matching::resting_order(req, m.next_order_id, req.quantity);
    let rested = engine::step(m, req).0;
    assert(rested.books[id] == book.joined(resting));
    crate::orderbook::laws::law_insert_keeps_book(book, resting);
    crate::orderbook::laws::law_insert_then_cancel(book, resting);
    let n = model::rank(req.side, book.side(req.side), req.price) as int;
    crate::orderbook::laws::law_newcomer_keeps_priority(req.side, book.side(req.side), req.price);
    let at = engine::place_of(rested.books[id], cancel.intent_hash);
    let j = rested.books[id];
    assert(j.side(req.side)[n].order == resting);
    assert(j.side(at.0)[at.1].order.intent_hash == cancel.intent_hash);
    assert(at == (req.side, n));
}

} // verus!
