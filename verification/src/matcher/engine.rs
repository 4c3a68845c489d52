//! The engine: one book per instrument and a source of order ids.
use super::events;
use super::events::{push_cancel, push_reject};
use super::matching;
use super::matching::match_limit;
use crate::fx_map::{map_contains, map_get, map_get_mut, map_insert};
use crate::orderbook::model;
use crate::orderbook::{BookModel, OrderBook};
use crate::types::{OrderEvent, OrderRequest, RejectReason, RequestType, Side};
use rustc_hash::FxHashMap;
use vstd::prelude::*;

verus! {

/// Why an instrument could not be registered.
#[derive(Debug, PartialEq, Eq, Structural, Copy, Clone)]
pub enum AddInstrumentError {
    AlreadyRegistered,
    /// The capacity must be above 0 and below `u32::MAX`.
    InvalidCapacity,
}

/// The abstract state of an engine.
#[verifier::ext_equal]
pub struct EngineModel {
    pub books: Map<u32, BookModel>,
    pub next_order_id: u64,
}

/// The matching engine of a set of instruments.
pub struct Engine {
    books: FxHashMap<u32, OrderBook>,
    next_order_id: u64,
}

impl View for Engine {
    type V = EngineModel;

    closed spec fn view(&self) -> EngineModel {
        EngineModel {
            books: self.books@.map_values(|b: OrderBook| b@),
            next_order_id: self.next_order_id,
        }
    }
}

/// The request creates an order: it names a registered instrument and has a
/// quantity and a price.
pub open spec fn accepted(m: EngineModel, req: OrderRequest) -> bool {
    &&& req.request_type == RequestType::New
    &&& m.books.contains_key(req.instrument_id)
    &&& req.quantity != 0
    &&& req.price != 0
}

/// Where the order with intent hash `hash` stands on a book.
pub open spec fn place_of(book: BookModel, hash: crate::types::IntentHash) -> (Side, int) {
    choose|s: Side, i: int|
        0 <= i < book.side(s).len() && (#[trigger] book.side(s)[i]).order.intent_hash == hash
}

/// What a new-order request does.
pub open spec fn new_step(m: EngineModel, req: OrderRequest) -> (EngineModel, Seq<OrderEvent>) {
    if !m.books.contains_key(req.instrument_id) {
        (m, seq![events::reject_event(RejectReason::UnknownInstrument, req.quantity, req)])
    } else if req.quantity == 0 {
        (m, seq![events::reject_event(RejectReason::InvalidQuantity, req.quantity, req)])
    } else if req.price == 0 {
        (m, seq![events::reject_event(RejectReason::InvalidPrice, req.quantity, req)])
    } else {
        let r = matching::matched(req, m.next_order_id, m.books[req.instrument_id]);
        (
            EngineModel {
                books: m.books.insert(req.instrument_id, r.0),
                next_order_id: (m.next_order_id + 1) as u64,
            },
            r.1,
        )
    }
}

/// What a cancel request does.
pub open spec fn cancel_step(m: EngineModel, req: OrderRequest) -> (EngineModel, Seq<OrderEvent>) {
    let book = m.books[req.instrument_id];
    if !m.books.contains_key(req.instrument_id) {
        (m, seq![events::reject_event(RejectReason::UnknownInstrument, 0, req)])
    } else if !book.has_intent(req.intent_hash) {
        (m, seq![events::reject_event(RejectReason::UnknownOrder, 0, req)])
    } else {
        let (side, i) = place_of(book, req.intent_hash);
        (
            EngineModel {
                books: m.books.insert(req.instrument_id, book.without(side, i)),
                ..m
            },
            seq![events::cancel_event(book.side(side)[i].order.order_id.0, req)],
        )
    }
}

/// What a request does: the next state and the events. Amendments are not part
/// of the engine.
pub open spec fn step(m: EngineModel, req: OrderRequest) -> (EngineModel, Seq<OrderEvent>) {
    match req.request_type {
        RequestType::New => new_step(m, req),
        RequestType::Cancel => cancel_step(m, req),
        RequestType::Amend => (m, Seq::empty()),
    }
}

/// An engine without instruments, which has issued no id yet.
pub open spec fn initial() -> EngineModel {
    EngineModel { books: Map::empty(), next_order_id: 0 }
}

/// The state after an instrument was asked to be registered: a valid capacity and
/// an instrument that is new add an empty book.
pub open spec fn registered(m: EngineModel, instrument_id: u32, book_capacity: u32) -> EngineModel {
    if 0 < book_capacity < u32::MAX && !m.books.contains_key(instrument_id) {
        EngineModel { books: m.books.insert(instrument_id, empty_book(book_capacity)), ..m }
    } else {
        m
    }
}

/// The engine can carry out the request: it is no amendment, and if it creates
/// an order there is an order id left and room in the order's price level.
pub open spec fn feasible(m: EngineModel, req: OrderRequest) -> bool {
    &&& req.request_type != RequestType::Amend
    &&& accepted(m, req) ==> m.next_order_id < u64::MAX && matching::level_has_room(
        req,
        m.next_order_id,
        m.books[req.instrument_id],
    )
}

impl Engine {
    /// Every book is well-formed, filed under its instrument, and not crossed.
    pub closed spec fn wf(self) -> bool {
        forall|id: u32| #[trigger]
            self.books@.contains_key(id) ==> {
                &&& self.books@[id].wf()
                &&& self.books@[id].instrument() == id
                &&& !self.books@[id]@.crossed()
            }
    }

    /// No book is crossed at rest, and every book's model is well-formed.
    pub proof fn lemma_model(self)
        requires
            self.wf(),
        ensures
            forall|id: u32| #[trigger]
                self@.books.contains_key(id) ==> self@.books[id].wf() && !self@.books[id].crossed(),
    {
        assert forall|id: u32| #[trigger] self@.books.contains_key(id) implies self@.books[id].wf()
            && !self@.books[id].crossed() by {
            assert(self.books@.contains_key(id));
            self.books@[id].lemma_model();
        }
    }

    /// An engine without instruments.
    pub fn new() -> (engine: Engine)
        ensures
            engine.wf(),
            engine@ == initial(),
    {
        let engine = Engine { books: FxHashMap::default(), next_order_id: 0 };
        assert(engine@.books =~= Map::empty());
        engine
    }

    /// Register an instrument with a book for `book_capacity` orders.
    pub fn add_instrument(&mut self, instrument_id: u32, book_capacity: u32) -> (r: Result<
        (),
        AddInstrumentError,
    >)
        requires
            old(self).wf(),
        ensures
            final(self).wf(),
            final(self)@ == registered(old(self)@, instrument_id, book_capacity),
            match r {
                Ok(()) => {
                    &&& 0 < book_capacity < u32::MAX
                    &&& !old(self)@.books.contains_key(instrument_id)
                },
                Err(AddInstrumentError::InvalidCapacity) => {
                    book_capacity == 0 || book_capacity == u32::MAX
                },
                Err(AddInstrumentError::AlreadyRegistered) => {
                    &&& 0 < book_capacity < u32::MAX
                    &&& old(self)@.books.contains_key(instrument_id)
                },
            },
    {
        if book_capacity == 0 || book_capacity == u32::MAX {
            return Err(AddInstrumentError::InvalidCapacity);
        }
        if map_contains(&self.books, &instrument_id) {
            return Err(AddInstrumentError::AlreadyRegistered);
        }
        let book = OrderBook::new(instrument_id, book_capacity);
        assert(book@ =~= empty_book(book_capacity));
        map_insert(&mut self.books, instrument_id, book);
        assert(self@.books =~= old(self)@.books.insert(instrument_id, empty_book(book_capacity)));
        Ok(())
    }

    /// The book of an instrument.
    pub fn book(&self, instrument_id: u32) -> (r: Option<&OrderBook>)
        requires
            self.wf(),
        ensures
            match r {
                Some(book) => {
                    &&& self@.books.contains_key(instrument_id)
                    &&& book@ == self@.books[instrument_id]
                    &&& book.wf()
                    &&& book.instrument() == instrument_id
                },
                None => !self@.books.contains_key(instrument_id),
            },
    {
        map_get(&self.books, &instrument_id)
    }

    /// The next order id; ids ascend over all instruments.
    fn mint_order_id(&mut self) -> (id: u64)
        requires
            old(self).next_order_id < u64::MAX,
        ensures
            id == old(self).next_order_id,
            final(self).next_order_id == old(self).next_order_id + 1,
            final(self).books == old(self).books,
    {
        let id: u64 = self.next_order_id;
        self.next_order_id = self.next_order_id + 1;
        id
    }

    /// Carry out a request and append its events to `out`.
    pub fn process(&mut self, req: &OrderRequest, out: &mut Vec<OrderEvent>)
        requires
            old(self).wf(),
            feasible(old(self)@, *req),
        ensures
            final(self).wf(),
            final(self)@ == step(old(self)@, *req).0,
            final(out)@ == old(out)@ + step(old(self)@, *req).1,
    {
        match req.request_type {
            RequestType::New => self.process_new(req, out),
            RequestType::Cancel => self.process_cancel(req, out),
            RequestType::Amend => {
                // Excluded by the precondition.
                assert(false);
            },
        }
    }

    fn process_new(&mut self, req: &OrderRequest, out: &mut Vec<OrderEvent>)
        requires
            old(self).wf(),
            req.request_type == RequestType::New,
            feasible(old(self)@, *req),
        ensures
            final(self).wf(),
            final(self)@ == new_step(old(self)@, *req).0,
            final(out)@ == old(out)@ + new_step(old(self)@, *req).1,
    {
        if !map_contains(&self.books, &req.instrument_id) {
            push_reject(RejectReason::UnknownInstrument, req.quantity, req, out);
            assert(out@ =~= old(out)@ + new_step(old(self)@, *req).1);
            return;
        }
        if req.quantity == 0 {
            push_reject(RejectReason::InvalidQuantity, req.quantity, req, out);
            assert(out@ =~= old(out)@ + new_step(old(self)@, *req).1);
            return;
        }
        if req.price == 0 {
            push_reject(RejectReason::InvalidPrice, req.quantity, req, out);
            assert(out@ =~= old(out)@ + new_step(old(self)@, *req).1);
            return;
        }
        let ghost model = self@.books[req.instrument_id];
        proof {
            self.books@[req.instrument_id].lemma_model();
            matching::law_matching_leaves_no_crossed_book(*req, self.next_order_id, model);
        }
        let order_id: u64 = self.mint_order_id();
        if let Some(book) = map_get_mut(&mut self.books, &req.instrument_id) {
            match_limit(book, req, order_id, out);
        }
        assert(self@.books =~= new_step(old(self)@, *req).0.books);
    }

    fn process_cancel(&mut self, req: &OrderRequest, out: &mut Vec<OrderEvent>)
        requires
            old(self).wf(),
            req.request_type == RequestType::Cancel,
        ensures
            final(self).wf(),
            final(self)@ == cancel_step(old(self)@, *req).0,
            final(out)@ == old(out)@ + cancel_step(old(self)@, *req).1,
    {
        let ghost model = self@.books[req.instrument_id];
        if let Some(book) = map_get_mut(&mut self.books, &req.instrument_id) {
            proof {
                book.lemma_model();
            }
            match book.cancel(&req.intent_hash) {
                Some(order) => {
                    proof {
                        let i = choose|i: int|
                            0 <= i < model.side(order.side).len() && (#[trigger] model.side(
                                order.side,
                            )[i]).order == order && book@ == model.without(order.side, i);
                        let at = place_of(model, req.intent_hash);
                        assert(model.side(order.side)[i].order.intent_hash == req.intent_hash);
                        assert(model.side(at.0)[at.1].order.intent_hash == req.intent_hash);
                        assert(at == (order.side, i));
                        lemma_removal_leaves_no_crossed_book(model, order.side, i);
                    }
                    push_cancel(order.order_id.0, req, out);
                },
                None => {
                    push_reject(RejectReason::UnknownOrder, 0, req, out);
                },
            }
        } else {
            push_reject(RejectReason::UnknownInstrument, 0, req, out);
        }
        assert(self@.books =~= cancel_step(old(self)@, *req).0.books);
        assert(out@ =~= old(out)@ + cancel_step(old(self)@, *req).1);
    }
}

/// A book without orders.
pub open spec fn empty_book(capacity: u32) -> BookModel {
    BookModel {
        bids: Seq::empty(),
        asks: Seq::empty(),
        spare: Seq::new(
            capacity as nat,
            |i: int|
                crate::arena::ArenaIdx { slot: (capacity - 1 - i) as u32, generation: 1 },
        ),
    }
}

/// Taking an order off does not cross a book.
pub proof fn lemma_removal_leaves_no_crossed_book(book: BookModel, side: Side, i: int)
    requires
        book.wf(),
        !book.crossed(),
        0 <= i < book.side(side).len(),
    ensures
        !book.without(side, i).crossed(),
{
    let after = book.without(side, i);
    let line = book.side(side);
    if after.side(side).len() > 0 {
        if i == 0 {
            assert(after.side(side)[0] == line[1]);
            assert(!model::better(side, line[1].order.price, line[0].order.price));
        } else {
            assert(after.side(side)[0] == line[0]);
        }
    }
}

} // verus!
