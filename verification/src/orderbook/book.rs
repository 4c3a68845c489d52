//! The order book of one instrument.
use super::ladder;
use super::ladder::Ladder;
use super::level;
use super::level::{OrderNode, PriceLevel};
use super::model;
use super::model::{BookModel, Entry};
use crate::arena::{Arena, ArenaIdx};
use crate::fx_map::{map_contains, map_get, map_insert, map_remove, map_with_capacity};
use crate::types::{IntentHash, Order, Side};
use rustc_hash::FxHashMap;
use vstd::prelude::*;

verus! {

/// Why an order could not rest on a book.
#[derive(Debug, PartialEq, Eq, Structural, Copy, Clone)]
pub enum InsertError {
    ArenaFull,
    DuplicateIntent,
}

/// The first order of a side, as the matcher inspects it.
pub struct TopView<'a> {
    pub price: u64,
    pub arena_idx: ArenaIdx,
    pub order: &'a Order,
}

/// The resting orders of one instrument in price-time priority.
pub struct OrderBook {
    instrument_id: u32,
    arena: Arena<OrderNode>,
    bids: Ladder,
    asks: Ladder,
    index: FxHashMap<[u8; 32], ArenaIdx>,
}

impl View for OrderBook {
    type V = BookModel;

    closed spec fn view(&self) -> BookModel {
        BookModel {
            bids: self.bids.line(self.arena@.live),
            asks: self.asks.line(self.arena@.live),
            spare: self.arena@.spare,
        }
    }
}

/// The index maps exactly the intent hashes of the live orders, each to the
/// handle of its order.
pub open spec fn indexed(
    index: Map<[u8; 32], ArenaIdx>,
    live: Map<ArenaIdx, OrderNode>,
) -> bool {
    &&& forall|k: [u8; 32]| #[trigger]
        index.contains_key(k) ==> live.contains_key(index[k])
            && live[index[k]].order.intent_hash.0 == k
    &&& forall|h: ArenaIdx| #[trigger]
        live.contains_key(h) ==> index.contains_key(live[h].order.intent_hash.0)
            && index[live[h].order.intent_hash.0] == h
}

impl OrderBook {
    /// The instrument that the book is for.
    pub closed spec fn instrument(self) -> u32 {
        self.instrument_id
    }

    /// How many orders the book has room for.
    pub closed spec fn capacity(self) -> nat {
        self.arena.capacity()
    }

    /// The structural invariant: every queued handle is live and every live
    /// order is queued once, links, lengths and totals are right, no level is
    /// empty, and the index matches the live orders.
    pub closed spec fn wf(self) -> bool {
        &&& self.arena.wf()
        &&& self.bids.wf(self.arena@.live, Side::Bid)
        &&& self.asks.wf(self.arena@.live, Side::Ask)
        &&& indexed(self.index@, self.arena@.live)
    }

    closed spec fn ladder(self, side: Side) -> Ladder {
        match side {
            Side::Bid => self.bids,
            Side::Ask => self.asks,
        }
    }

    /// Every entry of the model is a live order, and every live order an entry.
    proof fn lemma_entries(self)
        requires
            self.wf(),
        ensures
            forall|s: Side, i: int|
                #![trigger self@.side(s)[i]]
                0 <= i < self@.side(s).len() ==> {
                    let e = self@.side(s)[i];
                    &&& self.arena@.live.contains_key(e.handle)
                    &&& e == level::entry_of(self.arena@.live, e.handle)
                    &&& e.order.side == s
                },
            forall|h: ArenaIdx| #[trigger]
                self.arena@.live.contains_key(h) ==> exists|i: int|
                    0 <= i < self@.side(self.arena@.live[h].order.side).len()
                        && #[trigger] self@.side(self.arena@.live[h].order.side)[i]
                        == level::entry_of(self.arena@.live, h),
            forall|s: Side, i: int, j: int|
                #![trigger self@.side(s)[i], self@.side(s)[j]]
                0 <= i < self@.side(s).len() && 0 <= j < self@.side(s).len() && i != j
                    ==> self@.side(s)[i].handle != self@.side(s)[j].handle,
    {
        let live = self.arena@.live;
        self.bids.lemma_line(live, Side::Bid);
        self.asks.lemma_line(live, Side::Ask);
        assert forall|s: Side, i: int|
            #![trigger self@.side(s)[i]]
            0 <= i < self@.side(s).len() implies {
            let e = self@.side(s)[i];
            &&& live.contains_key(e.handle)
            &&& e == level::entry_of(live, e.handle)
            &&& e.order.side == s
        } by {
            let l = self.ladder(s).line(live);
            assert(self@.side(s) == l);
            assert(live.contains_key(l[i].handle));
        }
        assert forall|h: ArenaIdx| #[trigger] live.contains_key(h) implies exists|i: int|
            0 <= i < self@.side(live[h].order.side).len()
                && #[trigger] self@.side(live[h].order.side)[i] == level::entry_of(live, h) by {
            let s = live[h].order.side;
            let l = self.ladder(s).line(live);
            assert(self@.side(s) == l);
            assert(model::handles(l).contains(h));
            let i = model::handles(l).index_of(h);
            assert(l[i].handle == h);
            assert(self@.side(s)[i] == level::entry_of(live, h));
        }
        assert forall|s: Side, i: int, j: int|
            #![trigger self@.side(s)[i], self@.side(s)[j]]
            0 <= i < self@.side(s).len() && 0 <= j < self@.side(s).len() && i
                != j implies self@.side(s)[i].handle != self@.side(s)[j].handle by {
            let hs = model::handles(self.ladder(s).line(live));
            assert(hs[i] == self@.side(s)[i].handle);
            assert(hs[j] == self@.side(s)[j].handle);
        }
    }

    /// A well-formed book has a well-formed model that fills its capacity, and all
    /// its handles lie within it.
    pub proof fn lemma_model(self)
        requires
            self.wf(),
        ensures
            self@.wf(),
            forall|s: Side, i: int|
                0 <= i < self@.side(s).len() ==> (#[trigger] self@.side(s)[i]).handle.slot
                    < self.capacity(),
            forall|k: int|
                0 <= k < self@.spare.len() ==> (#[trigger] self@.spare[k]).slot < self.capacity(),
            self@.bids.len() + self@.asks.len() + self@.spare.len() == self.capacity(),
            self.capacity() < u32::MAX,
    {
        self.arena.lemma_model();
        self.bids.lemma_sorted(self.arena@.live, Side::Bid);
        self.asks.lemma_sorted(self.arena@.live, Side::Ask);
        self.lemma_distinct();
        self.lemma_filled();
        self.lemma_entries();
        assert forall|s: Side, i: int| 0 <= i < self@.side(s).len() implies {
            &&& (#[trigger] self@.side(s)[i]).handle.generation != 0
            &&& self@.side(s)[i].handle.slot < self.capacity()
        } by {
            assert(self.arena@.live.contains_key(self@.side(s)[i].handle));
        }
    }

    /// No two entries share an intent hash or a slot.
    proof fn lemma_distinct(self)
        requires
            self.wf(),
        ensures
            self@.distinct(),
    {
        let live = self.arena@.live;
        self.arena.lemma_model();
        self.lemma_entries();
        assert forall|s: Side, i: int, t: Side, j: int|
            #![trigger self@.side(s)[i], self@.side(t)[j]]
            0 <= i < self@.side(s).len() && 0 <= j < self@.side(t).len() && (s, i) != (
                t,
                j,
            ) implies {
            &&& self@.side(s)[i].order.intent_hash != self@.side(t)[j].order.intent_hash
            &&& self@.side(s)[i].handle.slot != self@.side(t)[j].handle.slot
        } by {
            let g = self@.side(s)[i].handle;
            let h = self@.side(t)[j].handle;
            assert(g != h);
            assert(live.contains_key(g) && live.contains_key(h));
            assert(self.index@.contains_key(live[g].order.intent_hash.0));
        }
        assert forall|s: Side, i: int, k: int|
            #![trigger self@.side(s)[i], self@.spare[k]]
            0 <= i < self@.side(s).len() && 0 <= k
                < self@.spare.len() implies self@.side(s)[i].handle.slot
            != self@.spare[k].slot by {
            assert(live.contains_key(self@.side(s)[i].handle));
        }
    }

    /// The entries are as many as the live orders.
    proof fn lemma_filled(self)
        requires
            self.wf(),
        ensures
            self@.bids.len() + self@.asks.len() == self.arena@.live.dom().len(),
    {
        let live = self.arena@.live;
        self.lemma_entries();
        let all = model::handles(self@.bids) + model::handles(self@.asks);
        assert forall|i: int, j: int| 0 <= i < j < all.len() implies all[i] != all[j] by {
            let n = self@.bids.len();
            let (s, i0) = if i < n {
                (Side::Bid, i)
            } else {
                (Side::Ask, i - n)
            };
            let (t, j0) = if j < n {
                (Side::Bid, j)
            } else {
                (Side::Ask, j - n)
            };
            assert(all[i] == self@.side(s)[i0].handle);
            assert(all[j] == self@.side(t)[j0].handle);
        }
        all.unique_seq_to_set();
        assert(all.to_set() =~= live.dom()) by {
            assert forall|h: ArenaIdx| all.to_set().contains(h) implies live.contains_key(h) by {
                let i = all.index_of(h);
                let n = self@.bids.len();
                if i < n {
                    assert(h == self@.side(Side::Bid)[i].handle);
                } else {
                    assert(h == self@.side(Side::Ask)[i - n].handle);
                }
            }
            assert forall|h: ArenaIdx| live.contains_key(h) implies all.to_set().contains(h) by {
                let s = live[h].order.side;
                let i = choose|i: int|
                    0 <= i < self@.side(s).len() && #[trigger] self@.side(s)[i] == level::entry_of(
                        live,
                        h,
                    );
                let k = if s == Side::Bid { i } else { self@.bids.len() + i };
                assert(all[k] == h);
            }
        }
    }

    /// The index answers whether an intent rests on the book.
    proof fn lemma_has_intent(self, hash: IntentHash)
        requires
            self.wf(),
        ensures
            self@.has_intent(hash) <==> self.index@.contains_key(hash.0),
    {
        let live = self.arena@.live;
        self.lemma_entries();
        if self@.has_intent(hash) {
            let (s, i) = choose|s: Side, i: int|
                0 <= i < self@.side(s).len() && (#[trigger] self@.side(s)[i]).order.intent_hash
                    == hash;
            assert(live.contains_key(self@.side(s)[i].handle));
        }
        if self.index@.contains_key(hash.0) {
            let h = self.index@[hash.0];
            assert(live.contains_key(h));
            let s = live[h].order.side;
            let i = choose|i: int|
                0 <= i < self@.side(s).len() && #[trigger] self@.side(s)[i] == level::entry_of(
                    live,
                    h,
                );
            assert(self@.side(s)[i].order.intent_hash == hash);
        }
    }

    /// An empty book with room for `capacity` orders.
    pub fn new(instrument_id: u32, capacity: u32) -> (book: OrderBook)
        requires
            0 < capacity < u32::MAX,
        ensures
            book.wf(),
            book.instrument() == instrument_id,
            book.capacity() == capacity,
            book@.bids == Seq::<Entry>::empty(),
            book@.asks == Seq::<Entry>::empty(),
            book@.spare == Seq::new(
                capacity as nat,
                |i: int| ArenaIdx { slot: (capacity - 1 - i) as u32, generation: 1 },
            ),
    {
        let book = OrderBook {
            instrument_id,
            arena: Arena::new(capacity),
            bids: Ladder::new(),
            asks: Ladder::new(),
            index: map_with_capacity(capacity as usize),
        };
        proof {
            book.bids.lemma_new(book.arena@.live, Side::Bid);
            book.asks.lemma_new(book.arena@.live, Side::Ask);
        }
        book
    }

    pub fn instrument_id(&self) -> (id: u32)
        ensures
            id == self.instrument(),
    {
        self.instrument_id
    }

    fn side(&self, side: Side) -> (r: &Ladder)
        ensures
            *r == self.ladder(side),
    {
        match side {
            Side::Bid => &self.bids,
            Side::Ask => &self.asks,
        }
    }

    /// The best level of `side`.
    fn best(&self, side: Side) -> (r: Option<(u64, &PriceLevel)>)
        requires
            self.wf(),
        ensures
            match r {
                Some((price, level)) => {
                    &&& self@.side(side).len() > 0
                    &&& price == self@.side(side)[0].order.price
                    &&& level.summarises(model::level_of(self@.side(side), price))
                    &&& level.head == self@.side(side)[0].handle
                },
                None => self@.side(side).len() == 0,
            },
    {
        let ladder = self.side(side);
        let ghost live = self.arena@.live;
        assert(self@.side(side) == ladder.line(live));
        assert(ladder.wf(live, side));
        let r = ladder.best(side);
        proof {
            ladder.lemma_empty(live, side);
            if let Some((price, level)) = r {
                ladder.lemma_best(live, side, price);
                ladder.lemma_level_at(live, side, price);
            }
        }
        r
    }

    /// The highest bid price and its level.
    pub fn best_bid(&self) -> (r: Option<(u64, &PriceLevel)>)
        requires
            self.wf(),
        ensures
            match r {
                Some((price, level)) => {
                    &&& self@.bids.len() > 0
                    &&& price == self@.bids[0].order.price
                    &&& level.summarises(model::level_of(self@.bids, price))
                    &&& level.len > 0
                    &&& level.head == self@.bids[0].handle
                    &&& level.head != ArenaIdx::sentinel()
                },
                None => self@.bids.len() == 0,
            },
    {
        proof {
            self.lemma_model();
            if self@.bids.len() > 0 {
                let front = self@.bids[0];
                assert(front == self@.side(Side::Bid)[0]);
                model::lemma_front_level(Side::Bid, self@.bids, front.order.price);
            }
        }
        self.best(Side::Bid)
    }

    /// The lowest ask price and its level.
    pub fn best_ask(&self) -> (r: Option<(u64, &PriceLevel)>)
        requires
            self.wf(),
        ensures
            match r {
                Some((price, level)) => {
                    &&& self@.asks.len() > 0
                    &&& price == self@.asks[0].order.price
                    &&& level.summarises(model::level_of(self@.asks, price))
                    &&& level.len > 0
                    &&& level.head == self@.asks[0].handle
                    &&& level.head != ArenaIdx::sentinel()
                },
                None => self@.asks.len() == 0,
            },
    {
        proof {
            self.lemma_model();
            if self@.asks.len() > 0 {
                let front = self@.asks[0];
                assert(front == self@.side(Side::Ask)[0]);
                model::lemma_front_level(Side::Ask, self@.asks, front.order.price);
            }
        }
        self.best(Side::Ask)
    }

    /// Whether nothing rests on `side`.
    pub fn is_empty(&self, side: Side) -> (empty: bool)
        requires
            self.wf(),
        ensures
            empty == (self@.side(side).len() == 0),
    {
        let ladder = self.side(side);
        proof {
            ladder.lemma_empty(self.arena@.live, side);
        }
        ladder.levels.is_empty()
    }

    /// Whether the best bid meets or exceeds the best ask.
    pub fn is_crossed(&self) -> (crossed: bool)
        requires
            self.wf(),
        ensures
            crossed == self@.crossed(),
    {
        match (self.best(Side::Bid), self.best(Side::Ask)) {
            (Some((bid, _)), Some((ask, _))) => bid >= ask,
            _ => false,
        }
    }

    /// The total quantity resting on `side` at `price`.
    pub fn level_qty(&self, side: Side, price: u64) -> (qty: u64)
        requires
            self.wf(),
        ensures
            qty == model::total(model::level_of(self@.side(side), price)),
    {
        let ladder = self.side(side);
        proof {
            assert(self@.side(side) == ladder.line(self.arena@.live));
            ladder.lemma_level_at(self.arena@.live, side, price);
            assert(model::total(Seq::empty()) == 0);
        }
        match ladder.levels.get(&price) {
            Some(level) => level.total_qty(),
            None => 0,
        }
    }

    /// The first order of `side`.
    pub fn peek_top(&self, side: Side) -> (r: Option<TopView<'_>>)
        requires
            self.wf(),
        ensures
            match r {
                Some(top) => {
                    &&& self@.side(side).len() > 0
                    &&& top.price == self@.side(side)[0].order.price
                    &&& top.arena_idx == self@.side(side)[0].handle
                    &&& *top.order == self@.side(side)[0].order
                },
                None => self@.side(side).len() == 0,
            },
    {
        proof {
            self.lemma_entries();
            self.arena.lemma_model();
        }
        let (price, level) = match self.best(side) {
            Some(best) => best,
            None => {
                return None;
            },
        };
        let arena_idx = match level.head() {
            Some(head) => head,
            None => {
                return None;
            },
        };
        match self.arena.get(arena_idx) {
            Some(node) => Some(TopView { price, arena_idx, order: &node.order }),
            None => None,
        }
    }

    /// The best `max_levels` bid levels, highest price first, each as price and
    /// total quantity.
    pub fn bid_depth(&self, max_levels: usize) -> (r: Vec<(u64, u64)>)
        requires
            self.wf(),
        ensures
            model::widened(r@) == model::top_depth(self@.bids, max_levels as nat),
    {
        self.bids.depth(Side::Bid, max_levels, Ghost(self.arena@.live))
    }

    /// The best `max_levels` ask levels, lowest price first, each as price and
    /// total quantity.
    pub fn ask_depth(&self, max_levels: usize) -> (r: Vec<(u64, u64)>)
        requires
            self.wf(),
        ensures
            model::widened(r@) == model::top_depth(self@.asks, max_levels as nat),
    {
        self.asks.depth(Side::Ask, max_levels, Ghost(self.arena@.live))
    }

    /// Rest `order` behind every order that has priority over it.
    pub fn insert(&mut self, order: Order) -> (r: Result<ArenaIdx, InsertError>)
        requires
            old(self).wf(),
            !old(self)@.has_intent(order.intent_hash) && old(self)@.spare.len() > 0 ==> model::total(
                model::level_of(old(self)@.side(order.side), order.price),
            ) + order.quantity <= u64::MAX,
        ensures
            final(self).wf(),
            final(self).instrument() == old(self).instrument(),
            final(self).capacity() == old(self).capacity(),
            match r {
                Ok(idx) => {
                    &&& !old(self)@.has_intent(order.intent_hash)
                    &&& old(self)@.spare.len() > 0
                    &&& idx == old(self)@.spare.last()
                    &&& final(self)@ == old(self)@.joined(order)
                },
                Err(InsertError::DuplicateIntent) => {
                    &&& old(self)@.has_intent(order.intent_hash)
                    &&& final(self)@ == old(self)@
                },
                Err(InsertError::ArenaFull) => {
                    &&& !old(self)@.has_intent(order.intent_hash)
                    &&& old(self)@.spare.len() == 0
                    &&& final(self)@ == old(self)@
                },
            },
    {
        let ghost live = self.arena@.live;
        proof {
            self.lemma_has_intent(order.intent_hash);
        }
        if map_contains(&self.index, &order.intent_hash.0) {
            return Err(InsertError::DuplicateIntent);
        }
        let placed = match order.side {
            Side::Bid => self.bids.push_back(&mut self.arena, order),
            Side::Ask => self.asks.push_back(&mut self.arena, order),
        };
        let idx = match placed {
            Some(idx) => idx,
            None => {
                return Err(InsertError::ArenaFull);
            },
        };
        map_insert(&mut self.index, order.intent_hash.0, idx);
        proof {
            match order.side {
                Side::Bid => self.asks.lemma_frame(live, self.arena@.live, Side::Ask),
                Side::Ask => self.bids.lemma_frame(live, self.arena@.live, Side::Bid),
            }
            assert(self@ =~= old(self)@.joined(order));
        }
        Ok(idx)
    }

    /// Take the live order `idx` of `side` off the book.
    fn take_off(&mut self, side: Side, idx: ArenaIdx) -> (r: Option<Order>)
        requires
            old(self).wf(),
            old(self).arena@.live.contains_key(idx),
            old(self).arena@.live[idx].order.side == side,
        ensures
            final(self).wf(),
            final(self).instrument() == old(self).instrument(),
            final(self).capacity() == old(self).capacity(),
            r == Some(old(self).arena@.live[idx].order),
            ({
                let i = model::handles(old(self)@.side(side)).index_of(idx);
                &&& 0 <= i < old(self)@.side(side).len()
                &&& old(self)@.side(side)[i] == level::entry_of(old(self).arena@.live, idx)
                &&& final(self)@ == old(self)@.without(side, i)
            }),
    {
        let ghost live = self.arena@.live;
        let ghost i = model::handles(self@.side(side)).index_of(idx);
        proof {
            self.lemma_entries();
            let k = choose|k: int|
                0 <= k < self@.side(side).len() && #[trigger] self@.side(side)[k]
                    == level::entry_of(live, idx);
            assert(model::handles(self@.side(side))[k] == idx);
            assert(model::handles(self@.side(side)).contains(idx));
            assert(self@.side(side)[i].handle == idx);
        }
        let taken = match side {
            Side::Bid => self.bids.unlink(&mut self.arena, idx),
            Side::Ask => self.asks.unlink(&mut self.arena, idx),
        };
        match taken {
            Some(order) => {
                map_remove(&mut self.index, &order.intent_hash.0);
                proof {
                    match side {
                        Side::Bid => self.asks.lemma_frame(live, self.arena@.live, Side::Ask),
                        Side::Ask => self.bids.lemma_frame(live, self.arena@.live, Side::Bid),
                    }
                    assert(self@ =~= old(self)@.without(side, i));
                }
                Some(order)
            },
            None => None,
        }
    }

    /// Take the order with `intent_hash` off the book.
    pub fn cancel(&mut self, intent_hash: &IntentHash) -> (r: Option<Order>)
        requires
            old(self).wf(),
        ensures
            final(self).wf(),
            final(self).instrument() == old(self).instrument(),
            final(self).capacity() == old(self).capacity(),
            match r {
                Some(order) => {
                    &&& order.intent_hash == *intent_hash
                    &&& exists|i: int|
                        0 <= i < old(self)@.side(order.side).len() && (#[trigger] old(self)@.side(
                            order.side,
                        )[i]).order == order && final(self)@ == old(self)@.without(order.side, i)
                },
                None => !old(self)@.has_intent(*intent_hash) && final(self)@ == old(self)@,
            },
            forall|s: Side, i: int|
                0 <= i < old(self)@.side(s).len() && (#[trigger] old(self)@.side(
                    s,
                )[i]).order.intent_hash == *intent_hash ==> r == Some(old(self)@.side(s)[i].order),
    {
        proof {
            self.lemma_has_intent(*intent_hash);
            self.lemma_distinct();
        }
        let idx = match map_get(&self.index, &intent_hash.0) {
            Some(idx) => *idx,
            None => {
                return None;
            },
        };
        let side = match self.arena.get(idx) {
            Some(node) => node.order.side,
            None => {
                return None;
            },
        };
        self.take_off(side, idx)
    }

    /// Take the first order of `side` off the book.
    pub fn pop_top(&mut self, side: Side) -> (r: Option<Order>)
        requires
            old(self).wf(),
        ensures
            final(self).wf(),
            final(self).instrument() == old(self).instrument(),
            final(self).capacity() == old(self).capacity(),
            match r {
                Some(order) => {
                    &&& old(self)@.side(side).len() > 0
                    &&& order == old(self)@.side(side)[0].order
                    &&& final(self)@ == old(self)@.without(side, 0)
                },
                None => old(self)@.side(side).len() == 0 && final(self)@ == old(self)@,
            },
    {
        let head = match self.best(side) {
            Some((_, level)) => level.head,
            None => {
                return None;
            },
        };
        proof {
            self.lemma_entries();
            assert(self@.side(side)[0].handle == head);
        }
        self.take_off(side, head)
    }

    /// Take `qty` off the first order of `side`, which keeps a positive
    /// quantity and its place.
    pub fn reduce_top(&mut self, side: Side, qty: u64)
        requires
            old(self).wf(),
            old(self)@.side(side).len() > 0,
            qty < old(self)@.side(side)[0].order.quantity,
        ensures
            final(self).wf(),
            final(self).instrument() == old(self).instrument(),
            final(self).capacity() == old(self).capacity(),
            final(self)@ == old(self)@.reduced(side, qty),
    {
        let ghost live = self.arena@.live;
        match side {
            Side::Bid => self.bids.reduce_front(&mut self.arena, side, qty),
            Side::Ask => self.asks.reduce_front(&mut self.arena, side, qty),
        }
        proof {
            old(self).lemma_entries();
            assert(live.contains_key(old(self)@.side(side)[0].handle));
            match side {
                Side::Bid => self.asks.lemma_frame(live, self.arena@.live, Side::Ask),
                Side::Ask => self.bids.lemma_frame(live, self.arena@.live, Side::Bid),
            }
            assert(self@ =~= old(self)@.reduced(side, qty));
        }
    }
}

} // verus!
