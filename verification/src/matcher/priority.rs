//! Price-time priority over the whole life of an engine.
use super::engine;
use super::engine::EngineModel;
use super::laws;
use super::laws::Command;
use super::outcome;
use crate::orderbook::{BookModel, Entry};
use crate::types::{OrderRequest, RequestType, Side, TimeInForce};
use vstd::prelude::*;

verus! {

/// Bids come highest price first and asks lowest price first; at one price the order
/// with the lower id, which was accepted earlier, comes first.
pub open spec fn in_line(side: Side, first: Entry, second: Entry) -> bool {
    ||| side == Side::Bid && first.order.price > second.order.price
    ||| side == Side::Ask && first.order.price < second.order.price
    ||| first.order.price == second.order.price && first.order.order_id.0 < second.order.order_id.0
}

/// The orders of a line belong there, have a quantity, and stand in price-time
/// priority.
pub open spec fn line_in_priority(line: Seq<Entry>, side: Side, id: u32, next: u64) -> bool {
    &&& forall|i: int|
        0 <= i < line.len() ==> {
            &&& (#[trigger] line[i]).order.quantity > 0
            &&& line[i].order.price > 0
            &&& line[i].order.side == side
            &&& line[i].order.instrument_id == id
            &&& line[i].order.order_id.0 < next
        }
    &&& forall|i: int, j: int|
        0 <= i < j < line.len() ==> in_line(side, #[trigger] line[i], #[trigger] line[j])
}

/// Every book of an engine is in price-time priority on both sides.
pub open spec fn in_priority(m: EngineModel) -> bool {
    forall|id: u32| #[trigger]
        m.books.contains_key(id) ==> {
            &&& line_in_priority(m.books[id].bids, Side::Bid, id, m.next_order_id)
            &&& line_in_priority(m.books[id].asks, Side::Ask, id, m.next_order_id)
        }
}

proof fn lemma_later_next(line: Seq<Entry>, side: Side, id: u32, next: u64, later: u64)
    requires
        line_in_priority(line, side, id, next),
        next <= later,
    ensures
        line_in_priority(line, side, id, later),
{
}

proof fn lemma_removed(line: Seq<Entry>, side: Side, id: u32, next: u64, i: int)
    requires
        line_in_priority(line, side, id, next),
        0 <= i < line.len(),
    ensures
        line_in_priority(line.remove(i), side, id, next),
{
    let after = line.remove(i);
    assert forall|a: int| 0 <= a < after.len() implies #[trigger] after[a] == line[if a < i {
        a
    } else {
        a + 1
    }] by {}
    assert forall|a: int, b: int| 0 <= a < b < after.len() implies in_line(
        side,
        #[trigger] after[a],
        #[trigger] after[b],
    ) by {
        let a0 = if a < i {
            a
        } else {
            a + 1
        };
        let b0 = if b < i {
            b
        } else {
            b + 1
        };
        assert(in_line(side, line[a0], line[b0]));
    }
}

proof fn lemma_other_side(m: EngineModel, req: OrderRequest)
    requires
        outcome::is_order(m, req),
        m.books[req.instrument_id].wf(),
        in_priority(m),
    ensures
        line_in_priority(
            outcome::facing(engine::step(m, req).0.books[req.instrument_id], req.side),
            if req.side == Side::Bid {
                Side::Ask
            } else {
                Side::Bid
            },
            req.instrument_id,
            m.next_order_id,
        ),
{
    outcome::law_other_side_loses_what_traded(m, req);
    outcome::law_trading_goes_as_far_as_it_can(m, req);
    let r = engine::step(m, req);
    let line = outcome::facing(m.books[req.instrument_id], req.side);
    let left = outcome::facing(r.0.books[req.instrument_id], req.side);
    let n = (r.1.len() / 2) as int;
    let side = if req.side == Side::Bid {
        Side::Ask
    } else {
        Side::Bid
    };
    assert(line_in_priority(line, side, req.instrument_id, m.next_order_id));
    let d = if outcome::ahead(line, n) <= req.quantity {
        n
    } else {
        n - 1
    };
    if outcome::ahead(line, n) > req.quantity && n == 0 {
        assert(outcome::ahead(line, 0) == 0);
    }
    assert forall|i: int| 0 <= i < left.len() implies {
        &&& (#[trigger] left[i]).order.price == line[d + i].order.price
        &&& left[i].order.side == line[d + i].order.side
        &&& left[i].order.instrument_id == line[d + i].order.instrument_id
        &&& left[i].order.order_id == line[d + i].order.order_id
        &&& left[i].order.quantity > 0
    } by {
        assert(line[d + i].order.quantity > 0);
    }
    assert forall|i: int| 0 <= i < left.len() implies {
        &&& (#[trigger] left[i]).order.quantity > 0
        &&& left[i].order.price > 0
        &&& left[i].order.side == side
        &&& left[i].order.instrument_id == req.instrument_id
        &&& left[i].order.order_id.0 < m.next_order_id
    } by {
        assert(line[d + i].order.side == side);
    }
    assert forall|i: int, j: int| 0 <= i < j < left.len() implies in_line(
        side,
        #[trigger] left[i],
        #[trigger] left[j],
    ) by {
        assert(in_line(side, line[d + i], line[d + j]));
    }
}

#[verifier::spinoff_prover]
#[verifier::rlimit(40)]
proof fn lemma_own_side(m: EngineModel, req: OrderRequest)
    requires
        outcome::is_order(m, req),
        m.books[req.instrument_id].wf(),
        m.next_order_id < u64::MAX,
        in_priority(m),
    ensures
        line_in_priority(
            outcome::own(engine::step(m, req).0.books[req.instrument_id], req.side),
            req.side,
            req.instrument_id,
            (m.next_order_id + 1) as u64,
        ),
{
    let r = engine::step(m, req);
    let n = (r.1.len() / 2) as int;
    let mine = outcome::own(m.books[req.instrument_id], req.side);
    let joined = outcome::own(r.0.books[req.instrument_id], req.side);
    let next = (m.next_order_id + 1) as u64;
    assert(line_in_priority(mine, req.side, req.instrument_id, m.next_order_id));
    lemma_later_next(mine, req.side, req.instrument_id, m.next_order_id, next);
    if req.tif == TimeInForce::GTC {
        outcome::law_good_till_cancelled_rests_what_is_left(m, req);
        if joined != mine {
            let p = choose|p: int|
                0 <= p <= mine.len() && (#[trigger] joined[p]).order == r.1[2 * n]->New_0
                    && joined.remove(p) == mine && forall|i: int|
                    0 <= i < mine.len() ==> if req.side == Side::Bid {
                        (#[trigger] mine[i]).order.price >= req.price <==> i < p
                    } else {
                        mine[i].order.price <= req.price <==> i < p
                    };
            assert forall|i: int| 0 <= i < joined.len() && i != p implies #[trigger] joined[i]
                == mine[if i < p {
                i
            } else {
                i - 1
            }] by {
                let k = if i < p {
                    i
                } else {
                    i - 1
                };
                assert(joined.remove(p)[k] == joined[i]);
            }
            assert forall|i: int, j: int| 0 <= i < j < joined.len() implies in_line(
                req.side,
                #[trigger] joined[i],
                #[trigger] joined[j],
            ) by {
                let i0 = if i < p {
                    i
                } else {
                    i - 1
                };
                let j0 = if j < p {
                    j
                } else {
                    j - 1
                };
                if i == p {
                    assert(joined[j] == mine[j0]);
                } else if j == p {
                    assert(joined[i] == mine[i0]);
                } else {
                    assert(in_line(req.side, mine[i0], mine[j0]));
                }
            }
        }
    } else if req.tif == TimeInForce::IOC {
        outcome::law_immediate_or_cancel_refuses_what_is_left(m, req);
    } else {
        outcome::law_fill_or_kill_fills_or_is_refused(m, req);
    }
}

proof fn lemma_command_keeps_priority(m: EngineModel, command: Command)
    requires
        laws::at_rest(m),
        in_priority(m),
        laws::can_obey(m, command),
    ensures
        in_priority(laws::obeyed(m, command).0),
{
    let after = laws::obeyed(m, command).0;
    match command {
        Command::AddInstrument { .. } => {},
        Command::Process { req } => {
            if outcome::is_order(m, req) {
                outcome::law_order_takes_one_id(m, req);
                lemma_other_side(m, req);
                lemma_own_side(m, req);
                let book = after.books[req.instrument_id];
                let other = if req.side == Side::Bid {
                    Side::Ask
                } else {
                    Side::Bid
                };
                lemma_later_next(
                    outcome::facing(book, req.side),
                    other,
                    req.instrument_id,
                    m.next_order_id,
                    after.next_order_id,
                );
                assert forall|id: u32| #[trigger] after.books.contains_key(id) implies {
                    &&& line_in_priority(after.books[id].bids, Side::Bid, id, after.next_order_id)
                    &&& line_in_priority(after.books[id].asks, Side::Ask, id, after.next_order_id)
                } by {
                    if id != req.instrument_id {
                        assert(m.books.contains_key(id));
                        assert(after.books[id] == m.books[id]);
                        lemma_later_next(
                            m.books[id].bids,
                            Side::Bid,
                            id,
                            m.next_order_id,
                            after.next_order_id,
                        );
                        lemma_later_next(
                            m.books[id].asks,
                            Side::Ask,
                            id,
                            m.next_order_id,
                            after.next_order_id,
                        );
                    }
                }
            } else if req.request_type == RequestType::New {
                outcome::law_invalid_orders_are_refused(m, req);
            } else if m.books.contains_key(req.instrument_id) && outcome::rests(
                m.books[req.instrument_id],
                req.intent_hash,
            ) {
                let book = m.books[req.instrument_id];
                lemma_cancel_keeps_priority(m, req, book);
            } else {
                outcome::law_cancel_of_nothing_is_refused(m, req);
            }
        },
    }
}

proof fn lemma_cancel_keeps_priority(m: EngineModel, req: OrderRequest, book: BookModel)
    requires
        req.request_type == RequestType::Cancel,
        m.books.contains_key(req.instrument_id),
        book == m.books[req.instrument_id],
        book.wf(),
        outcome::rests(book, req.intent_hash),
        in_priority(m),
    ensures
        in_priority(engine::step(m, req).0),
{
    let next = m.next_order_id;
    let id = req.instrument_id;
    if exists|i: int|
        0 <= i < book.bids.len() && (#[trigger] book.bids[i]).order.intent_hash
            == req.intent_hash {
        let i = choose|i: int|
            0 <= i < book.bids.len() && (#[trigger] book.bids[i]).order.intent_hash
                == req.intent_hash;
        outcome::law_cancel_takes_off_the_order_it_names(m, req, Side::Bid, i);
        lemma_removed(book.bids, Side::Bid, id, next, i);
    } else {
        let i = choose|i: int|
            0 <= i < book.asks.len() && (#[trigger] book.asks[i]).order.intent_hash
                == req.intent_hash;
        outcome::law_cancel_takes_off_the_order_it_names(m, req, Side::Ask, i);
        lemma_removed(book.asks, Side::Ask, id, next, i);
    }
}

/// Price-time priority: whatever a new engine is asked to do, after every command the
/// bids of each book stand highest price first, the asks lowest price first, and
/// orders at one price in the order in which they were accepted.
pub proof fn law_books_stay_in_price_time_priority(log: Seq<Command>)
    requires
        laws::replayable(engine::initial(), log),
    ensures
        in_priority(laws::replayed(engine::initial(), log).0),
    decreases log.len(),
{
    if log.len() > 0 {
        let front = log.drop_last();
        law_books_stay_in_price_time_priority(front);
        laws::law_no_book_is_crossed_at_rest(front);
        lemma_command_keeps_priority(laws::replayed(engine::initial(), front).0, log.last());
    }
}

/// No book is crossed at rest: whatever a new engine is asked to do, after every
/// command each bid of a book is below each of its asks, and no two orders of a book
/// share an intent hash or a slot.
pub proof fn law_every_bid_is_below_every_ask(log: Seq<Command>, id: u32)
    requires
        laws::replayed(engine::initial(), log).0.books.contains_key(id),
    ensures
        ({
            let book = laws::replayed(engine::initial(), log).0.books[id];
            &&& forall|i: int, j: int|
                0 <= i < book.bids.len() && 0 <= j < book.asks.len() ==> {
                    &&& (#[trigger] book.bids[i]).order.price < (
                    #[trigger] book.asks[j]).order.price
                    &&& book.bids[i].order.intent_hash != book.asks[j].order.intent_hash
                    &&& book.bids[i].handle.slot != book.asks[j].handle.slot
                }
            &&& forall|i: int, j: int|
                0 <= i < j < book.bids.len() ==> {
                    &&& (#[trigger] book.bids[i]).order.intent_hash != (
                    #[trigger] book.bids[j]).order.intent_hash
                    &&& book.bids[i].handle.slot != book.bids[j].handle.slot
                }
            &&& forall|i: int, j: int|
                0 <= i < j < book.asks.len() ==> {
                    &&& (#[trigger] book.asks[i]).order.intent_hash != (
                    #[trigger] book.asks[j]).order.intent_hash
                    &&& book.asks[i].handle.slot != book.asks[j].handle.slot
                }
        }),
{
    laws::law_no_book_is_crossed_at_rest(log);
    let book = laws::replayed(engine::initial(), log).0.books[id];
    crate::orderbook::laws::law_crossed_means_a_bid_reaches_an_ask(book);
    assert forall|i: int, j: int| 0 <= i < book.bids.len() && 0 <= j < book.asks.len() implies {
        &&& (#[trigger] book.bids[i]).order.price < (#[trigger] book.asks[j]).order.price
        &&& book.bids[i].order.intent_hash != book.asks[j].order.intent_hash
        &&& book.bids[i].handle.slot != book.asks[j].handle.slot
    } by {
        assert(book.side(Side::Bid)[i] == book.bids[i]);
        assert(book.side(Side::Ask)[j] == book.asks[j]);
    }
    assert forall|i: int, j: int| 0 <= i < j < book.bids.len() implies {
        &&& (#[trigger] book.bids[i]).order.intent_hash != (
        #[trigger] book.bids[j]).order.intent_hash
        &&& book.bids[i].handle.slot != book.bids[j].handle.slot
    } by {
        assert(book.side(Side::Bid)[i] == book.bids[i]);
        assert(book.side(Side::Bid)[j] == book.bids[j]);
    }
    assert forall|i: int, j: int| 0 <= i < j < book.asks.len() implies {
        &&& (#[trigger] book.asks[i]).order.intent_hash != (
        #[trigger] book.asks[j]).order.intent_hash
        &&& book.asks[i].handle.slot != book.asks[j].handle.slot
    } by {
        assert(book.side(Side::Ask)[i] == book.asks[i]);
        assert(book.side(Side::Ask)[j] == book.asks[j]);
    }
}

/// Registering an instrument opens an empty book with room for exactly as many orders
/// as asked for, in slots of its own. An instrument that is registered already, or a
/// capacity of 0 or of the largest number, changes nothing.
pub proof fn law_registration_opens_an_empty_book(m: EngineModel, id: u32, capacity: u32)
    ensures
        ({
            let after = engine::registered(m, id, capacity);
            if m.books.contains_key(id) || capacity == 0 || capacity == 0xffff_ffff {
                after == m
            } else {
                &&& after.next_order_id == m.next_order_id
                &&& after.books.contains_key(id)
                &&& after.books.remove(id) == m.books
                &&& after.books[id].bids.len() == 0
                &&& after.books[id].asks.len() == 0
                &&& after.books[id].spare.len() == capacity
                &&& forall|k: int|
                    0 <= k < capacity ==> {
                        &&& (#[trigger] after.books[id].spare[k]).slot == capacity - 1 - k
                        &&& after.books[id].spare[k].generation == 1
                    }
            }
        }),
{
    if !m.books.contains_key(id) {
        assert(engine::registered(m, id, capacity).books.remove(id) =~= m.books);
    }
}

} // verus!
