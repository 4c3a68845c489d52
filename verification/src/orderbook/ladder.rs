//! One side of a book: its price levels and their queues in the arena.
use super::level;
use super::level::{OrderNode, PriceLevel};
use super::model;
use super::model::Entry;
use crate::arena::{Arena, ArenaIdx};
use crate::types::{Order, Side};
use std::collections::BTreeMap;
use vstd::prelude::*;

verus! {

/// `BTreeMap::first_key_value`: the entry with the least key.
#[verifier::external_body]
fn first_level(levels: &BTreeMap<u64, PriceLevel>) -> (r: Option<(&u64, &PriceLevel)>)
    ensures
        match r {
            Some((p, l)) => {
                &&& levels@.contains_key(*p)
                &&& levels@[*p] == *l
                &&& forall|q: u64| #[trigger] levels@.contains_key(q) ==> *p <= q
            },
            None => levels@.is_empty(),
        },
{
    levels.first_key_value()
}

/// `BTreeMap::last_key_value`: the entry with the greatest key.
#[verifier::external_body]
fn last_level(levels: &BTreeMap<u64, PriceLevel>) -> (r: Option<(&u64, &PriceLevel)>)
    ensures
        match r {
            Some((p, l)) => {
                &&& levels@.contains_key(*p)
                &&& levels@[*p] == *l
                &&& forall|q: u64| #[trigger] levels@.contains_key(q) ==> *p >= q
            },
            None => levels@.is_empty(),
        },
{
    levels.last_key_value()
}

/// `BTreeMap::get_mut`: mutable access to the value stored for `price`; whatever
/// is left there is the only change to the map.
#[verifier::external_body]
fn level_mut<'a>(levels: &'a mut BTreeMap<u64, PriceLevel>, price: &u64) -> (r: Option<
    &'a mut PriceLevel,
>)
    ensures
        match r {
            Some(l) => {
                &&& old(levels)@.contains_key(*price)
                &&& old(levels)@[*price] == *l
                &&& final(levels)@ == old(levels)@.insert(*price, *final(l))
            },
            None => !old(levels)@.contains_key(*price) && final(levels)@ == old(levels)@,
        },
{
    levels.get_mut(price)
}

/// The price levels of one side.
pub struct Ladder {
    pub levels: BTreeMap<u64, PriceLevel>,
    /// The prices of the levels, best first.
    pub prices: Ghost<Seq<u64>>,
}

impl Ladder {
    /// The orders of each level, oldest first.
    pub open spec fn rows(self, live: Map<ArenaIdx, OrderNode>) -> Map<u64, Seq<Entry>> {
        self.levels@.map_values(|l: PriceLevel| level::row_of(l.queue@, live))
    }

    /// The orders of all levels in price-time priority.
    pub open spec fn line(self, live: Map<ArenaIdx, OrderNode>) -> Seq<Entry> {
        model::chain(self.prices@, self.rows(live))
    }

    /// The ladder files the live order `h`.
    pub open spec fn files(self, live: Map<ArenaIdx, OrderNode>, h: ArenaIdx) -> bool {
        &&& self.levels@.contains_key(live[h].order.price)
        &&& self.levels@[live[h].order.price].queue@.contains(h)
    }

    /// The ladder files exactly the live orders of `side`, each in the level of
    /// its price, and no level is empty.
    pub open spec fn wf(self, live: Map<ArenaIdx, OrderNode>, side: Side) -> bool {
        &&& model::chain_wf(side, self.prices@, self.rows(live))
        &&& forall|p: u64| #[trigger]
            self.levels@.contains_key(p) ==> level::level_wf(self.levels@[p], live, side, p)
        &&& forall|h: ArenaIdx| #[trigger]
            live.contains_key(h) && live[h].order.side == side ==> self.files(live, h)
    }

    /// A side without orders.
    pub(crate) fn new() -> (ladder: Ladder)
        ensures
            ladder.levels@.is_empty(),
            ladder.prices@ == Seq::<u64>::empty(),
    {
        Ladder { levels: BTreeMap::new(), prices: Ghost(Seq::empty()) }
    }

    pub(crate) proof fn lemma_new(self, live: Map<ArenaIdx, OrderNode>, side: Side)
        requires
            self.levels@.is_empty(),
            self.prices@ == Seq::<u64>::empty(),
            live.is_empty(),
        ensures
            self.wf(live, side),
            self.line(live) == Seq::<Entry>::empty(),
    {
        assert(self.rows(live).dom() =~= Set::empty());
        assert forall|h: ArenaIdx| #[trigger] live.contains_key(h) implies false by {
            assert(live.dom().contains(h));
        }
    }

    /// The line is in price-time priority.
    pub(crate) proof fn lemma_sorted(self, live: Map<ArenaIdx, OrderNode>, side: Side)
        requires
            self.wf(live, side),
        ensures
            model::line_wf(side, self.line(live)),
    {
        assert forall|i: int| 0 <= i < self.prices@.len() implies self.rows(live).contains_key(
            #[trigger] self.prices@[i],
        ) by {
            assert(self.prices@.contains(self.prices@[i]));
        }
        model::lemma_chain_is_line(side, self.prices@, self.rows(live));
    }

    /// The level stored for a price summarises the orders of the line at that
    /// price; no such order means no such level.
    pub(crate) proof fn lemma_level_at(self, live: Map<ArenaIdx, OrderNode>, side: Side, price: u64)
        requires
            self.wf(live, side),
        ensures
            if self.levels@.contains_key(price) {
                self.levels@[price].summarises(model::level_of(self.line(live), price))
            } else {
                model::level_of(self.line(live), price) == Seq::<Entry>::empty()
            },
    {
        assert forall|i: int| 0 <= i < self.prices@.len() implies self.rows(live).contains_key(
            #[trigger] self.prices@[i],
        ) by {
            assert(self.prices@.contains(self.prices@[i]));
        }
        model::lemma_chain_level(side, self.prices@, self.rows(live), price);
        assert(self.rows(live).contains_key(price) <==> self.prices@.contains(price));
        if self.levels@.contains_key(price) {
            assert(level::level_wf(self.levels@[price], live, side, price));
        }
    }

    /// What happens to live orders of the other side does not matter.
    pub(crate) proof fn lemma_frame(
        self,
        live: Map<ArenaIdx, OrderNode>,
        after: Map<ArenaIdx, OrderNode>,
        side: Side,
    )
        requires
            self.wf(live, side),
            forall|h: ArenaIdx| #[trigger]
                live.contains_key(h) && live[h].order.side == side ==> after.contains_key(h)
                    && after[h] == live[h],
            forall|h: ArenaIdx| #[trigger]
                after.contains_key(h) && after[h].order.side == side ==> live.contains_key(h)
                    && live[h] == after[h],
        ensures
            self.wf(after, side),
            self.line(after) == self.line(live),
            self.rows(after) == self.rows(live),
    {
        assert forall|p: u64| #[trigger] self.levels@.contains_key(p) implies level::level_wf(
            self.levels@[p],
            after,
            side,
            p,
        ) && level::row_of(self.levels@[p].queue@, after) == level::row_of(self.levels@[p].queue@, live) by {
            let q = self.levels@[p].queue@;
            assert forall|i: int| 0 <= i < q.len() implies #[trigger] level::node_ok(
                q,
                after,
                side,
                p,
                i,
            ) by {
                assert(level::node_ok(q, live, side, p, i));
            }
            assert forall|i: int| 0 <= i < q.len() implies level::row_of(q, after)[i] == #[trigger] level::row_of(
                q,
                live,
            )[i] by {
                assert(level::node_ok(q, live, side, p, i));
            }
            assert(level::row_of(q, after) =~= level::row_of(q, live));
        }
        assert(self.rows(after) =~= self.rows(live));
    }

    /// The best level: the highest bid, the lowest ask.
    pub(crate) fn best(&self, side: Side) -> (r: Option<(u64, &PriceLevel)>)
        ensures
            match r {
                Some((p, l)) => {
                    &&& self.levels@.contains_key(p)
                    &&& self.levels@[p] == *l
                    &&& forall|q: u64| #[trigger] self.levels@.contains_key(q) ==> !model::better(side, q, p)
                },
                None => self.levels@.is_empty(),
            },
    {
        let best = match side {
            Side::Bid => last_level(&self.levels),
            Side::Ask => first_level(&self.levels),
        };
        match best {
            Some((p, l)) => Some((*p, l)),
            None => None,
        }
    }

    /// What the best level says of the line.
    pub(crate) proof fn lemma_best(self, live: Map<ArenaIdx, OrderNode>, side: Side, p: u64)
        requires
            self.wf(live, side),
            self.levels@.contains_key(p),
            forall|q: u64| #[trigger] self.levels@.contains_key(q) ==> !model::better(side, q, p),
        ensures
            self.prices@.len() > 0,
            self.prices@[0] == p,
            self.line(live).len() > 0,
            self.line(live)[0] == level::entry_of(live, self.levels@[p].head),
            self.line(live)[0].order.price == p,
            live.contains_key(self.levels@[p].head),
    {
        let prices = self.prices@;
        let rows = self.rows(live);
        assert(rows.contains_key(p));
        let k = prices.index_of(p);
        if k > 0 {
            assert(model::better(side, prices[0], prices[k]));
            assert(prices.contains(prices[0]));
            assert(rows.contains_key(prices[0]));
            assert(self.levels@.contains_key(prices[0]));
        }
        assert(level::level_wf(self.levels@[p], live, side, p));
        let q = self.levels@[p].queue@;
        assert(level::node_ok(q, live, side, p, 0));
        model::lemma_chain_place(prices, rows, 0, 0);
        assert(prices.take(0) =~= Seq::empty());
        assert(rows[p][0] == level::entry_of(live, q[0]));
    }

    /// A side without levels has an empty line, and conversely.
    pub(crate) proof fn lemma_empty(self, live: Map<ArenaIdx, OrderNode>, side: Side)
        requires
            self.wf(live, side),
        ensures
            self.levels@.is_empty() <==> self.line(live).len() == 0,
    {
        let prices = self.prices@;
        let rows = self.rows(live);
        if prices.len() > 0 {
            assert(prices.contains(prices[0]));
            assert(rows.contains_key(prices[0]));
            assert(self.levels@.contains_key(prices[0]));
            model::lemma_chain_place(prices, rows, 0, 0);
        } else {
            assert forall|p: u64| !self.levels@.contains_key(p) by {
                assert(rows.contains_key(p) <==> prices.contains(p));
            }
            assert(self.levels@.dom() =~= Set::empty());
        }
    }

    /// A first order at its price opens a level.
    proof fn lemma_opened(
        before: Ladder,
        after: Ladder,
        live: Map<ArenaIdx, OrderNode>,
        order: Order,
        idx: ArenaIdx,
    )
        requires
            before.wf(live, order.side),
            !live.contains_key(idx),
            !before.levels@.contains_key(order.price),
            after.levels@.contains_key(order.price),
            after.levels@ == before.levels@.insert(order.price, after.levels@[order.price]),
            after.levels@[order.price].queue@ == seq![idx],
            after.levels@[order.price].head == idx,
            after.levels@[order.price].tail == idx,
            after.levels@[order.price].len == 1,
            after.levels@[order.price].total_qty == order.quantity,
            after.prices@ == before.prices@.insert(
                model::price_rank(order.side, before.prices@, order.price) as int,
                order.price,
            ),
        ensures
            ({
                let sentinel = ArenaIdx::sentinel();
                let live2 = live.insert(idx, OrderNode { order, next: sentinel, prev: sentinel });
                &&& after.wf(live2, order.side)
                &&& after.line(live2) == joined_line(before.line(live), order, idx)
            }),
    {
        let sentinel = ArenaIdx::sentinel();
        let live2 = live.insert(idx, OrderNode { order, next: sentinel, prev: sentinel });
        let p = order.price;
        let side = order.side;
        let entry = Entry { handle: idx, order };
        assert forall|x: u64| #[trigger] before.levels@.contains_key(x) implies level::row_of(
            before.levels@[x].queue@,
            live2,
        ) == level::row_of(before.levels@[x].queue@, live) && level::level_wf(
            before.levels@[x],
            live2,
            side,
            x,
        ) by {
            assert forall|h: ArenaIdx| #[trigger]
                before.levels@[x].queue@.contains(h) implies live2.contains_key(h) && live2[h]
                == live[h] by {
                before.lemma_queued(live, side, x, h);
            }
            before.lemma_level_frame(live, live2, side, x);
        }
        assert(level::row_of(seq![idx], live2) =~= seq![entry]);
        assert(after.rows(live2) =~= before.rows(live).insert(p, seq![entry]));
        model::lemma_chain_join_new(side, before.prices@, before.rows(live), entry);
        model::lemma_total_one(entry);
        assert(level::node_ok(seq![idx], live2, side, p, 0));
        assert(model::handles(seq![entry]) =~= seq![idx]);
        assert(level::level_wf(after.levels@[p], live2, side, p));
        assert forall|h: ArenaIdx| #[trigger]
            live2.contains_key(h) && live2[h].order.side == side implies after.files(live2, h) by {
            if h == idx {
                assert(seq![idx][0] == idx);
            } else {
                assert(before.files(live, h));
            }
        }
    }

    /// A level keeps its shape while the nodes of its queue do.
    proof fn lemma_level_frame(
        self,
        live: Map<ArenaIdx, OrderNode>,
        after: Map<ArenaIdx, OrderNode>,
        side: Side,
        p: u64,
    )
        requires
            self.wf(live, side),
            self.levels@.contains_key(p),
            forall|h: ArenaIdx| #[trigger]
                self.levels@[p].queue@.contains(h) ==> after.contains_key(h) && after[h] == live[h],
        ensures
            level::level_wf(self.levels@[p], after, side, p),
            level::row_of(self.levels@[p].queue@, after) == level::row_of(
                self.levels@[p].queue@,
                live,
            ),
    {
        let q = self.levels@[p].queue@;
        assert forall|i: int| 0 <= i < q.len() implies #[trigger] level::node_ok(
            q,
            after,
            side,
            p,
            i,
        ) by {
            assert(level::node_ok(q, live, side, p, i));
            assert(q.contains(q[i]));
        }
        assert forall|i: int| 0 <= i < q.len() implies level::row_of(q, after)[i]
            == #[trigger] level::row_of(q, live)[i] by {
            assert(q.contains(q[i]));
        }
        assert(level::row_of(q, after) =~= level::row_of(q, live));
    }

    /// Every queued handle is a live order of this side at the level's price.
    pub(crate) proof fn lemma_queued(
        self,
        live: Map<ArenaIdx, OrderNode>,
        side: Side,
        p: u64,
        h: ArenaIdx,
    )
        requires
            self.wf(live, side),
            self.levels@.contains_key(p),
            self.levels@[p].queue@.contains(h),
        ensures
            live.contains_key(h),
            live[h].order.side == side,
            live[h].order.price == p,
    {
        let q = self.levels@[p].queue@;
        let i = q.index_of(h);
        assert(level::node_ok(q, live, side, p, i));
    }

    /// A later order at its price joins the back of the level.
    proof fn lemma_extended(
        before: Ladder,
        after: Ladder,
        live: Map<ArenaIdx, OrderNode>,
        order: Order,
        idx: ArenaIdx,
    )
        requires
            before.wf(live, order.side),
            !live.contains_key(idx),
            before.levels@.contains_key(order.price),
            after.prices == before.prices,
            after.levels@.contains_key(order.price),
            after.levels@ == before.levels@.insert(order.price, after.levels@[order.price]),
            ({
                let l = before.levels@[order.price];
                let m = after.levels@[order.price];
                &&& m.queue@ == l.queue@.push(idx)
                &&& m.head == l.head
                &&& m.tail == idx
                &&& m.len == l.len + 1
                &&& m.total_qty == l.total_qty + order.quantity
            }),
        ensures
            ({
                let tail = before.levels@[order.price].tail;
                let node = OrderNode { order, next: ArenaIdx::sentinel(), prev: tail };
                let live2 = live.insert(idx, node).insert(
                    tail,
                    OrderNode { next: idx, ..live[tail] },
                );
                &&& after.wf(live2, order.side)
                &&& after.line(live2) == joined_line(before.line(live), order, idx)
            }),
    {
        let p = order.price;
        let side = order.side;
        let l = before.levels@[p];
        let tail = l.tail;
        let node = OrderNode { order, next: ArenaIdx::sentinel(), prev: tail };
        let live2 = live.insert(idx, node).insert(tail, OrderNode { next: idx, ..live[tail] });
        let entry = Entry { handle: idx, order };
        let q = l.queue@;
        let q2 = q.push(idx);
        assert(level::level_wf(l, live, side, p));
        assert(level::node_ok(q, live, side, p, q.len() - 1));
        assert(tail == q.last());
        assert forall|x: u64| #[trigger] before.levels@.contains_key(x) && x != p implies (
        level::row_of(before.levels@[x].queue@, live2) == level::row_of(
            before.levels@[x].queue@,
            live,
        ) && level::level_wf(before.levels@[x], live2, side, x)) by {
            assert forall|h: ArenaIdx| #[trigger]
                before.levels@[x].queue@.contains(h) implies live2.contains_key(h) && live2[h]
                == live[h] by {
                before.lemma_queued(live, side, x, h);
            }
            before.lemma_level_frame(live, live2, side, x);
        }
        assert forall|i: int| 0 <= i < q.len() implies live2.contains_key(#[trigger] q[i])
            && live2[q[i]].order == live[q[i]].order && q[i] != idx by {
            assert(level::node_ok(q, live, side, p, i));
        }
        assert(level::row_of(q2, live2) =~= level::row_of(q, live).push(entry));
        assert(after.rows(live2) =~= before.rows(live).insert(
            p,
            before.rows(live)[p].push(entry),
        ));
        model::lemma_chain_join_level(side, before.prices@, before.rows(live), entry);
        let row = level::row_of(q, live);
        assert(row.push(entry) =~= row + seq![entry]);
        model::lemma_total_add(row, seq![entry]);
        model::lemma_total_one(entry);
        assert forall|i: int| 0 <= i < q2.len() implies #[trigger] level::node_ok(
            q2,
            live2,
            side,
            p,
            i,
        ) by {
            if i < q.len() {
                assert(level::node_ok(q, live, side, p, i));
                assert(q[i] != tail || i == q.len() - 1);
            }
        }
        assert(model::handles(row.push(entry)) =~= q2) by {
            assert(model::handles(row) =~= q);
        }
        assert(level::level_wf(after.levels@[p], live2, side, p));
        assert forall|h: ArenaIdx| #[trigger]
            live2.contains_key(h) && live2[h].order.side == side implies after.files(live2, h) by {
            if h == idx {
                assert(q2[q.len() as int] == idx);
            } else {
                assert(live.contains_key(h) && live[h].order.side == side);
                assert(before.files(live, h));
                let x = live[h].order.price;
                let i = before.levels@[x].queue@.index_of(h);
                if x == p {
                    assert(q2[i] == h);
                }
            }
        }
    }

    /// Put `order` into the arena and at the back of the level of its price.
    #[verifier::rlimit(50)]
    #[verifier::spinoff_prover]
    pub(crate) fn push_back(&mut self, arena: &mut Arena<OrderNode>, order: Order) -> (r: Option<
        ArenaIdx,
    >)
        requires
            old(arena).wf(),
            old(self).wf(old(arena)@.live, order.side),
            old(arena)@.spare.len() > 0 ==> model::total(
                model::level_of(old(self).line(old(arena)@.live), order.price),
            ) + order.quantity <= u64::MAX,
        ensures
            final(arena).wf(),
            final(arena).capacity() == old(arena).capacity(),
            match r {
                Some(idx) => {
                    &&& old(arena)@.spare.len() > 0
                    &&& idx == old(arena)@.spare.last()
                    &&& final(arena)@.spare == old(arena)@.spare.drop_last()
                    &&& final(self).wf(final(arena)@.live, order.side)
                    &&& final(self).line(final(arena)@.live) == joined_line(
                        old(self).line(old(arena)@.live),
                        order,
                        idx,
                    )
                    &&& joined_live(old(arena)@.live, final(arena)@.live, order, idx)
                },
                None => {
                    &&& old(arena)@.spare.len() == 0
                    &&& *final(self) == *old(self)
                    &&& final(arena)@ == old(arena)@
                },
            },
    {
        let ghost live = arena@.live;
        proof {
            arena.lemma_model();
            model::lemma_chain_level(
                order.side,
                self.prices@,
                self.rows(live),
                order.price,
            );
        }
        let present: bool = self.levels.contains_key(&order.price);
        let tail = match self.levels.get(&order.price) {
            Some(level) => level.tail,
            None => ArenaIdx::sentinel(),
        };
        let idx = match arena.allocate(OrderNode { order, next: ArenaIdx::sentinel(), prev: tail }) {
            Some(idx) => idx,
            None => {
                return None;
            },
        };
        proof {
            if present {
                let l = self.levels@[order.price];
                assert(level::level_wf(l, live, order.side, order.price));
                assert(level::node_ok(
                    l.queue@,
                    live,
                    order.side,
                    order.price,
                    l.queue@.len() - 1,
                ));
                assert forall|i: int| 0 <= i < l.queue@.len() implies live.contains_key(
                    #[trigger] l.queue@[i],
                ) by {
                    assert(level::node_ok(l.queue@, live, order.side, order.price, i));
                }
                lemma_queue_len(l.queue@, live);
                assert(self.rows(live).contains_key(order.price));
                assert(self.rows(live)[order.price] == level::row_of(l.queue@, live));
            } else {
                assert(model::total(Seq::empty()) == 0);
                assert(!live.contains_key(tail));
                assert(idx.generation != 0);
            }
        }
        if let Some(node) = arena.get_mut(tail) {
            node.next = idx;
        }
        if !present {
            self.levels.insert(order.price, PriceLevel::default());
            self.prices = Ghost(
                self.prices@.insert(
                    model::price_rank(order.side, self.prices@, order.price) as int,
                    order.price,
                ),
            );
        }
        if let Some(level) = level_mut(&mut self.levels, &order.price) {
            if !tail.is_valid() {
                level.head = idx;
            }
            level.tail = idx;
            level.len = level.len + 1;
            level.total_qty = level.total_qty + order.quantity;
            level.queue = Ghost(level.queue@.push(idx));
        }
        proof {
            assert(self.levels@ =~= old(self).levels@.insert(
                order.price,
                self.levels@[order.price],
            ));
            assert(arena@.live.dom() =~= live.dom().insert(idx));
            if present {
                Self::lemma_extended(*old(self), *self, live, order, idx);
            } else {
                assert(seq![idx] =~= Seq::<ArenaIdx>::empty().push(idx));
                Self::lemma_opened(*old(self), *self, live, order, idx);
            }
        }
        Some(idx)
    }

    /// Every entry of the line is a live order of this side, and no two entries
    /// share a handle.
    pub(crate) proof fn lemma_line(self, live: Map<ArenaIdx, OrderNode>, side: Side)
        requires
            self.wf(live, side),
        ensures
            forall|i: int|
                0 <= i < self.line(live).len() ==> live.contains_key(
                    (#[trigger] self.line(live)[i]).handle,
                ) && self.line(live)[i].order == live[self.line(live)[i].handle].order
                    && self.line(live)[i].order.side == side,
            forall|h: ArenaIdx| #[trigger]
                live.contains_key(h) && live[h].order.side == side ==> model::handles(
                    self.line(live),
                ).contains(h),
            model::handles(self.line(live)).no_duplicates(),
    {
        let line = self.line(live);
        let prices = self.prices@;
        let rows = self.rows(live);
        assert forall|i: int| 0 <= i < line.len() implies live.contains_key(
            (#[trigger] line[i]).handle,
        ) && line[i].order == live[line[i].handle].order && line[i].order.side == side by {
            let r = model::lemma_chain_origin(prices, rows, i);
            let p = prices[r.0];
            assert(prices.contains(p));
            assert(rows.contains_key(p));
            assert(level::node_ok(self.levels@[p].queue@, live, side, p, r.1));
        }
        assert forall|h: ArenaIdx| #[trigger]
            live.contains_key(h) && live[h].order.side == side implies model::handles(
            line,
        ).contains(h) by {
            assert(self.files(live, h));
            let p = live[h].order.price;
            assert(rows.contains_key(p));
            let k = prices.index_of(p);
            let j = self.levels@[p].queue@.index_of(h);
            model::lemma_chain_place(prices, rows, k, j);
            let i = model::chain(prices.take(k), rows).len() + j;
            assert(model::handles(line)[i] == h);
        }
        assert forall|i: int, j: int|
            0 <= i < line.len() && 0 <= j < line.len() && i != j implies model::handles(line)[i]
            != model::handles(line)[j] by {
            let r = model::lemma_chain_origin(prices, rows, i);
            let t = model::lemma_chain_origin(prices, rows, j);
            assert(prices.contains(prices[r.0]) && prices.contains(prices[t.0]));
            assert(rows.contains_key(prices[r.0]) && rows.contains_key(prices[t.0]));
            assert(level::node_ok(self.levels@[prices[r.0]].queue@, live, side, prices[r.0], r.1));
            assert(level::node_ok(self.levels@[prices[t.0]].queue@, live, side, prices[t.0], t.1));
            if r.0 != t.0 {
                model::lemma_ranked_distinct(side, prices, r.0, t.0);
            } else {
                assert(level::level_wf(self.levels@[prices[r.0]], live, side, prices[r.0]));
            }
        }
    }

    /// Where the order `h` stands in the line: behind the levels at better
    /// prices, at its place in its own level.
    proof fn lemma_place(self, live: Map<ArenaIdx, OrderNode>, side: Side, h: ArenaIdx)
        requires
            self.wf(live, side),
            live.contains_key(h),
            live[h].order.side == side,
        ensures
            ({
                let p = live[h].order.price;
                let k = self.prices@.index_of(p);
                let a = model::chain(self.prices@.take(k), self.rows(live));
                let b = model::chain(self.prices@.skip(k + 1), self.rows(live));
                let j = self.levels@[p].queue@.index_of(h);
                &&& self.levels@.contains_key(p)
                &&& self.levels@[p].queue@.contains(h)
                &&& self.rows(live).contains_key(p)
                &&& self.line(live) == a + self.rows(live)[p] + b
                &&& model::handles(self.line(live)).contains(h)
                &&& model::handles(self.line(live)).index_of(h) == a.len() + j
                &&& 0 <= j < self.rows(live)[p].len()
                &&& self.line(live)[a.len() + j] == level::entry_of(live, h)
            }),
    {
        let p = live[h].order.price;
        let prices = self.prices@;
        let rows = self.rows(live);
        assert(self.files(live, h));
        assert(rows.contains_key(p));
        let k = prices.index_of(p);
        let a = model::chain(prices.take(k), rows);
        let j = self.levels@[p].queue@.index_of(h);
        model::lemma_chain_split(prices, rows, k);
        self.lemma_line(live, side);
        let hs = model::handles(self.line(live));
        assert(hs[a.len() + j] == h);
        assert(hs[hs.index_of(h)] == h);
    }

    /// Splicing an order out of a level that keeps others.
    #[verifier::rlimit(40)]
    proof fn lemma_level_spliced(
        self,
        live: Map<ArenaIdx, OrderNode>,
        side: Side,
        idx: ArenaIdx,
    )
        requires
            self.wf(live, side),
            live.contains_key(idx),
            live[idx].order.side == side,
            !live.contains_key(ArenaIdx::sentinel()),
        ensures
            ({
                let q = self.levels@[live[idx].order.price].queue@;
                let i = q.index_of(idx);
                let q2 = q.remove(i);
                let live2 = spliced(live, idx);
                let p = live[idx].order.price;
                &&& q[i] == idx
                &&& 0 <= i < q.len()
                &&& q2.no_duplicates()
                &&& live[idx].prev == level::neighbour(q, i - 1)
                &&& live[idx].next == level::neighbour(q, i + 1)
                &&& level::row_of(q2, live2) == level::row_of(q, live).remove(i)
                &&& model::handles(level::row_of(q2, live2)) == q2
                &&& forall|j: int|
                    0 <= j < q2.len() ==> #[trigger] level::node_ok(q2, live2, side, p, j)
            }),
    {
        let p = live[idx].order.price;
        self.lemma_place(live, side, idx);
        assert(level::level_wf(self.levels@[p], live, side, p));
        let q = self.levels@[p].queue@;
        let i = q.index_of(idx);
        let q2 = q.remove(i);
        let live2 = spliced(live, idx);
        assert(level::node_ok(q, live, side, p, i));
        if i > 0 {
            assert(level::node_ok(q, live, side, p, i - 1));
        }
        if i + 1 < q.len() {
            assert(level::node_ok(q, live, side, p, i + 1));
        }
        assert forall|j: int| 0 <= j < q2.len() implies #[trigger] level::node_ok(
            q2,
            live2,
            side,
            p,
            j,
        ) by {
            let j0 = if j < i { j } else { j + 1 };
            assert(q2[j] == q[j0]);
            assert(level::node_ok(q, live, side, p, j0));
            assert(q[j0] != idx);
            assert(j0 != i - 1 ==> q[j0] != live[idx].prev);
            assert(j0 != i + 1 ==> q[j0] != live[idx].next);
        }
        assert forall|j: int| 0 <= j < q2.len() implies level::row_of(q2, live2)[j]
            == #[trigger] level::row_of(q, live).remove(i)[j] by {
            let j0 = if j < i { j } else { j + 1 };
            assert(level::node_ok(q2, live2, side, p, j));
            assert(q2[j] == q[j0]);
        }
        assert(level::row_of(q2, live2) =~= level::row_of(q, live).remove(i));
        assert(model::handles(level::row_of(q2, live2)) =~= q2);
    }

    /// Splicing an order out of its level, as the ladder sees it.
    proof fn lemma_unlinked(
        before: Ladder,
        after: Ladder,
        live: Map<ArenaIdx, OrderNode>,
        side: Side,
        idx: ArenaIdx,
    )
        requires
            before.wf(live, side),
            live.contains_key(idx),
            live[idx].order.side == side,
            !live.contains_key(ArenaIdx::sentinel()),
            ({
                let p = live[idx].order.price;
                let l = before.levels@[p];
                let q2 = l.queue@.remove(l.queue@.index_of(idx));
                if q2.len() == 0 {
                    &&& after.levels@ == before.levels@.remove(p)
                    &&& after.prices@ == before.prices@.remove(before.prices@.index_of(p))
                } else {
                    &&& after.prices == before.prices
                    &&& after.levels@.contains_key(p)
                    &&& after.levels@ == before.levels@.insert(p, after.levels@[p])
                    &&& after.levels@[p].queue@ == q2
                    &&& after.levels@[p].head == level::neighbour(q2, 0)
                    &&& after.levels@[p].tail == level::neighbour(q2, q2.len() - 1)
                    &&& after.levels@[p].len == q2.len()
                    &&& after.levels@[p].total_qty == l.total_qty - live[idx].order.quantity
                }
            }),
        ensures
            after.wf(spliced(live, idx), side),
            after.line(spliced(live, idx)) == before.line(live).remove(
                model::handles(before.line(live)).index_of(idx),
            ),
    {
        let p = live[idx].order.price;
        let l = before.levels@[p];
        let q = l.queue@;
        let i = q.index_of(idx);
        let q2 = q.remove(i);
        let live2 = spliced(live, idx);
        before.lemma_place(live, side, idx);
        before.lemma_level_spliced(live, side, idx);
        assert(level::level_wf(l, live, side, p));
        before.lemma_spliced_live(live, side, idx);
        assert forall|x: u64| #[trigger] before.levels@.contains_key(x) && x != p implies (
        level::row_of(before.levels@[x].queue@, live2) == level::row_of(
            before.levels@[x].queue@,
            live,
        ) && level::level_wf(before.levels@[x], live2, side, x)) by {
            assert forall|h: ArenaIdx| #[trigger]
                before.levels@[x].queue@.contains(h) implies live2.contains_key(h) && live2[h]
                == live[h] by {
                before.lemma_queued(live, side, x, h);
            }
            before.lemma_level_frame(live, live2, side, x);
        }
        let row = level::row_of(q, live);
        model::lemma_total_remove(row, i);
        let rows = before.rows(live);
        let k = before.prices@.index_of(p);
        let a = model::chain(before.prices@.take(k), rows);
        let b = model::chain(before.prices@.skip(k + 1), rows);
        if q2.len() == 0 {
            assert(after.rows(live2) =~= rows.remove(p));
            model::lemma_chain_level_gone(side, before.prices@, rows, p);
            assert(after.line(live2) =~= before.line(live).remove(a.len() as int + i));
        } else {
            let row2 = row.remove(i);
            assert(after.rows(live2) =~= rows.insert(p, row2));
            assert forall|j: int| 0 <= j < row2.len() implies (#[trigger] row2[j]).order.price == p
                && row2[j].order.side == side by {
                assert(level::node_ok(q2, live2, side, p, j));
            }
            model::lemma_chain_level_changed(side, before.prices@, rows, p, row2);
            assert(after.line(live2) =~= before.line(live).remove(a.len() as int + i));
            assert(level::level_wf(after.levels@[p], live2, side, p));
        }
        assert forall|h: ArenaIdx| #[trigger]
            live2.contains_key(h) && live2[h].order.side == side implies after.files(live2, h) by {
            assert(live.contains_key(h) && live[h].order == live2[h].order);
            assert(before.files(live, h));
            let x = live[h].order.price;
            if x == p {
                let j = q.index_of(h);
                assert(q2[if j < i { j } else { j - 1 }] == h);
            }
        }
    }

    /// What splicing an order out does to the live nodes.
    proof fn lemma_spliced_live(
        self,
        live: Map<ArenaIdx, OrderNode>,
        side: Side,
        idx: ArenaIdx,
    )
        requires
            self.wf(live, side),
            live.contains_key(idx),
            live[idx].order.side == side,
            !live.contains_key(ArenaIdx::sentinel()),
        ensures
            left_live(live, spliced(live, idx), idx),
            forall|h: ArenaIdx| #[trigger]
                live.contains_key(h) && h != idx && live[h].order.price != live[idx].order.price
                    ==> spliced(live, idx)[h] == live[h],
    {
        let p = live[idx].order.price;
        self.lemma_place(live, side, idx);
        let q = self.levels@[p].queue@;
        let i = q.index_of(idx);
        assert(level::node_ok(q, live, side, p, i));
        if i > 0 {
            assert(level::node_ok(q, live, side, p, i - 1));
        }
        if i + 1 < q.len() {
            assert(level::node_ok(q, live, side, p, i + 1));
        }
        assert(spliced(live, idx).dom() =~= live.dom().remove(idx));
    }

    /// Take the order `idx` out of its level and out of the arena.
    pub(crate) fn unlink(&mut self, arena: &mut Arena<OrderNode>, idx: ArenaIdx) -> (r: Option<
        Order,
    >)
        requires
            old(arena).wf(),
            old(arena)@.live.contains_key(idx) ==> old(self).wf(
                old(arena)@.live,
                old(arena)@.live[idx].order.side,
            ),
        ensures
            final(arena).wf(),
            final(arena).capacity() == old(arena).capacity(),
            match r {
                Some(order) => {
                    &&& old(arena)@.live.contains_key(idx)
                    &&& order == old(arena)@.live[idx].order
                    &&& final(arena)@.spare == old(arena)@.spare.push(idx.bumped())
                    &&& final(self).wf(final(arena)@.live, order.side)
                    &&& final(self).line(final(arena)@.live) == old(self).line(
                        old(arena)@.live,
                    ).remove(model::handles(old(self).line(old(arena)@.live)).index_of(idx))
                    &&& left_live(old(arena)@.live, final(arena)@.live, idx)
                },
                None => {
                    &&& !old(arena)@.live.contains_key(idx)
                    &&& *final(self) == *old(self)
                    &&& final(arena)@ == old(arena)@
                },
            },
    {
        let ghost live = arena@.live;
        proof {
            arena.lemma_model();
        }
        let node = match arena.remove(idx) {
            Some(node) => node,
            None => {
                return None;
            },
        };
        let ghost p = node.order.price;
        let ghost side = node.order.side;
        let ghost q = self.levels@[p].queue@;
        let ghost i = q.index_of(idx);
        proof {
            assert(!live.contains_key(ArenaIdx::sentinel()));
            self.lemma_place(live, side, idx);
            self.lemma_level_spliced(live, side, idx);
            self.lemma_spliced_live(live, side, idx);
            assert(level::level_wf(self.levels@[p], live, side, p));
            model::lemma_total_remove(level::row_of(q, live), i);
            assert(forall|j: int|
                0 <= j < q.len() ==> #[trigger] level::node_ok(q, live, side, p, j));
            assert forall|j: int| 0 <= j < q.len() implies #[trigger] q[j]
                != ArenaIdx::sentinel() by {
                assert(level::node_ok(q, live, side, p, j));
            }
        }
        if let Some(before) = arena.get_mut(node.prev) {
            before.next = node.next;
        }
        if let Some(after) = arena.get_mut(node.next) {
            after.prev = node.prev;
        }
        assert(arena@.live =~= spliced(live, idx));
        let mut emptied: bool = false;
        if let Some(level) = level_mut(&mut self.levels, &node.order.price) {
            if !node.prev.is_valid() {
                level.head = node.next;
            }
            if !node.next.is_valid() {
                level.tail = node.prev;
            }
            level.len = level.len - 1;
            level.total_qty = level.total_qty - node.order.quantity;
            level.queue = Ghost(q.remove(i));
            emptied = level.is_empty();
        }
        if emptied {
            self.levels.remove(&node.order.price);
            self.prices = Ghost(self.prices@.remove(self.prices@.index_of(p)));
        }
        proof {
            let ghost q2 = q.remove(i);
            assert(q2.len() > 0 ==> level::neighbour(q2, 0) == if i == 0 {
                q[1]
            } else {
                q[0]
            });
            if emptied {
                assert(self.levels@ =~= old(self).levels@.remove(p));
            } else {
                assert(self.levels@ =~= old(self).levels@.insert(p, self.levels@[p]));
            }
            Self::lemma_unlinked(*old(self), *self, live, side, idx);
        }
        Some(node.order)
    }

    /// Shrinking the first order of the line.
    proof fn lemma_reduced(
        before: Ladder,
        after: Ladder,
        live: Map<ArenaIdx, OrderNode>,
        side: Side,
        p: u64,
        qty: u64,
    )
        requires
            before.wf(live, side),
            before.levels@.contains_key(p),
            forall|x: u64| #[trigger] before.levels@.contains_key(x) ==> !model::better(side, x, p),
            qty <= live[before.levels@[p].head].order.quantity,
            after.prices == before.prices,
            ({
                let l = before.levels@[p];
                let m = after.levels@[p];
                &&& after.levels@ == before.levels@.insert(p, m)
                &&& m.queue == l.queue
                &&& m.head == l.head
                &&& m.tail == l.tail
                &&& m.len == l.len
                &&& m.total_qty == l.total_qty - qty
            }),
        ensures
            ({
                let head = before.levels@[p].head;
                let live2 = live.insert(head, reduced_node(live[head], qty));
                &&& after.wf(live2, side)
                &&& after.line(live2) == before.line(live).update(
                    0,
                    model::shrunk(before.line(live)[0], qty),
                )
            }),
    {
        let l = before.levels@[p];
        let head = l.head;
        let live2 = live.insert(head, reduced_node(live[head], qty));
        let q = l.queue@;
        assert(level::level_wf(l, live, side, p));
        assert(level::node_ok(q, live, side, p, 0));
        assert forall|x: u64| #[trigger] before.levels@.contains_key(x) && x != p implies (
        level::row_of(before.levels@[x].queue@, live2) == level::row_of(
            before.levels@[x].queue@,
            live,
        ) && level::level_wf(before.levels@[x], live2, side, x)) by {
            assert forall|h: ArenaIdx| #[trigger]
                before.levels@[x].queue@.contains(h) implies live2.contains_key(h) && live2[h]
                == live[h] by {
                before.lemma_queued(live, side, x, h);
            }
            before.lemma_level_frame(live, live2, side, x);
        }
        let row = level::row_of(q, live);
        let row2 = row.update(0, model::shrunk(row[0], qty));
        model::lemma_total_shrunk(row, qty);
        assert forall|j: int| 0 <= j < q.len() implies #[trigger] level::node_ok(
            q,
            live2,
            side,
            p,
            j,
        ) && level::row_of(q, live2)[j] == row2[j] by {
            assert(level::node_ok(q, live, side, p, j));
        }
        assert(level::row_of(q, live2) =~= row2);
        assert(model::handles(row2) =~= model::handles(row));
        assert(level::level_wf(after.levels@[p], live2, side, p));
        let rows = before.rows(live);
        assert(rows.contains_key(p));
        assert(after.rows(live2) =~= rows.insert(p, row2));
        assert forall|j: int| 0 <= j < row2.len() implies (#[trigger] row2[j]).order.price == p
            && row2[j].order.side == side by {
            assert(level::node_ok(q, live2, side, p, j));
        }
        model::lemma_chain_level_changed(side, before.prices@, rows, p, row2);
        before.lemma_best(live, side, p);
        let k = before.prices@.index_of(p);
        if k != 0 {
            model::lemma_ranked_distinct(side, before.prices@, 0, k);
        }
        assert(before.prices@.take(0) =~= Seq::empty());
        assert(after.line(live2) =~= before.line(live).update(
            0,
            model::shrunk(before.line(live)[0], qty),
        ));
        assert forall|h: ArenaIdx| #[trigger]
            live2.contains_key(h) && live2[h].order.side == side implies after.files(live2, h) by {
            assert(live.contains_key(h));
            assert(before.files(live, h));
        }
    }

    /// Take `qty` off the first order of the line.
    pub(crate) fn reduce_front(&mut self, arena: &mut Arena<OrderNode>, side: Side, qty: u64)
        requires
            old(arena).wf(),
            old(self).wf(old(arena)@.live, side),
            old(self).line(old(arena)@.live).len() > 0,
            qty <= old(self).line(old(arena)@.live)[0].order.quantity,
        ensures
            final(arena).wf(),
            final(arena).capacity() == old(arena).capacity(),
            final(arena)@.spare == old(arena)@.spare,
            final(self).wf(final(arena)@.live, side),
            final(self).line(final(arena)@.live) == old(self).line(old(arena)@.live).update(
                0,
                model::shrunk(old(self).line(old(arena)@.live)[0], qty),
            ),
            ({
                let head = old(self).line(old(arena)@.live)[0].handle;
                &&& old(arena)@.live.contains_key(head)
                &&& final(arena)@.live == old(arena)@.live.insert(
                    head,
                    reduced_node(old(arena)@.live[head], qty),
                )
            }),
    {
        let ghost live = arena@.live;
        proof {
            self.lemma_empty(live, side);
        }
        if let Some((price, best)) = self.best(side) {
            let head = best.head;
            proof {
                self.lemma_best(live, side, price);
                let l = self.levels@[price];
                assert(level::level_wf(l, live, side, price));
                assert(level::node_ok(l.queue@, live, side, price, 0));
                let row = level::row_of(l.queue@, live);
                model::lemma_total_shrunk(row, qty);
            }
            if let Some(node) = arena.get_mut(head) {
                node.order.quantity = node.order.quantity - qty;
            }
            if let Some(level) = level_mut(&mut self.levels, &price) {
                level.total_qty = level.total_qty - qty;
            }
            proof {
                Self::lemma_reduced(*old(self), *self, live, side, price, qty);
            }
        }
    }

    /// Every level as price and total quantity, by ascending price.
    fn ascending(&self) -> (r: Vec<(u64, u64)>)
        ensures
            forall|i: int, j: int| 0 <= i < j < r.len() ==> (#[trigger] r[i]).0 < (#[trigger] r[j]).0,
            forall|i: int|
                0 <= i < r.len() ==> self.levels@.contains_key((#[trigger] r[i]).0)
                    && self.levels@[r[i].0].total_qty == r[i].1,
            forall|p: u64| #[trigger]
                self.levels@.contains_key(p) ==> exists|i: int|
                    0 <= i < r.len() && (#[trigger] r[i]).0 == p,
    {
        broadcast use vstd::laws_cmp::group_laws_cmp;
        broadcast use vstd::std_specs::btree::group_btree_axioms;

        let mut out: Vec<(u64, u64)> = Vec::new();
        let levels = self.levels.iter();
        let ghost all = vstd::std_specs::iter::IteratorSpec::remaining(&levels);
        for kv in it: levels
            invariant
                it.seq() == all,
                out.len() == it.index(),
                forall|i: int|
                    0 <= i < out.len() ==> (#[trigger] out[i]).0 == *all[i].0 && out[i].1
                        == all[i].1.total_qty,
        {
            let (price, level) = kv;
            out.push((*price, level.total_qty));
        }
        proof {
            let keys = all.map_values(|kv: (&u64, &PriceLevel)| *kv.0);
            assert(vstd::std_specs::btree::increasing_seq(keys));
            assert forall|i: int, j: int| 0 <= i < j < out.len() implies (#[trigger] out[i]).0 < (
            #[trigger] out[j]).0 by {
                assert(keys[i] == out[i].0 && keys[j] == out[j].0);
                assert(vstd::laws_cmp::obeys_cmp::<u64>());
                assert(vstd::std_specs::cmp::OrdSpec::cmp_spec(&keys[i], &keys[j]) is Less);
            }
            assert forall|p: u64| #[trigger] self.levels@.contains_key(p) implies exists|i: int|
                0 <= i < out.len() && (#[trigger] out[i]).0 == p by {
                let i = all.index_of((&p, &self.levels@[p]));
                assert(out[i].0 == p);
            }
        }
        out
    }

    /// The best `max_levels` levels as price and total quantity, best first.
    pub(crate) fn depth(
        &self,
        side: Side,
        max_levels: usize,
        Ghost(live): Ghost<Map<ArenaIdx, OrderNode>>,
    ) -> (r: Vec<(u64, u64)>)
        requires
            self.wf(live, side),
        ensures
            model::widened(r@) == model::top_depth(self.line(live), max_levels as nat),
    {
        let all = self.ascending();
        let ghost best_first = match side {
            Side::Bid => all@.reverse(),
            Side::Ask => all@,
        };
        proof {
            let prices = best_first.map_values(|l: (u64, u64)| l.0);
            assert forall|p: u64| #[trigger] prices.contains(p) <==> self.prices@.contains(p) by {
                assert(self.rows(live).contains_key(p) <==> self.prices@.contains(p));
                if prices.contains(p) {
                    let i = prices.index_of(p);
                    let j = if side == Side::Bid { all.len() - 1 - i } else { i };
                    assert(all[j].0 == p);
                }
                if self.levels@.contains_key(p) {
                    let j = choose|j: int| 0 <= j < all.len() && (#[trigger] all[j]).0 == p;
                    let i = if side == Side::Bid { all.len() - 1 - j } else { j };
                    assert(prices[i] == p);
                }
            }
            model::lemma_ranked_unique(side, prices, self.prices@);
            assert forall|i: int| 0 <= i < self.prices@.len() implies self.rows(live).contains_key(
                #[trigger] self.prices@[i],
            ) by {
                assert(self.prices@.contains(self.prices@[i]));
            }
            model::lemma_chain_depth(side, self.prices@, self.rows(live));
            let full = model::depth(self.line(live));
            assert forall|i: int| 0 <= i < full.len() implies full[i] == (
                best_first[i].0,
                best_first[i].1 as nat,
            ) by {
                let p = self.prices@[i];
                assert(prices[i] == p);
                assert(self.levels@.contains_key(p));
                assert(level::level_wf(self.levels@[p], live, side, p));
            }
        }
        let n: usize = if all.len() < max_levels {
            all.len()
        } else {
            max_levels
        };
        let mut out: Vec<(u64, u64)> = Vec::new();
        let mut i: usize = 0;
        while i < n
            invariant
                i <= n <= all.len(),
                out@ == best_first.take(i as int),
                best_first == match side {
                    Side::Bid => all@.reverse(),
                    Side::Ask => all@,
                },
            decreases n - i,
        {
            let level = match side {
                Side::Bid => all[all.len() - 1 - i],
                Side::Ask => all[i],
            };
            out.push(level);
            i = i + 1;
            assert(out@ =~= best_first.take(i as int));
        }
        assert(model::widened(out@) =~= model::top_depth(self.line(live), max_levels as nat));
        out
    }
}


/// `node` with `qty` taken off the quantity of its order.
pub open spec fn reduced_node(node: OrderNode, qty: u64) -> OrderNode {
    OrderNode {
        order: Order { quantity: (node.order.quantity - qty) as u64, ..node.order },
        ..node
    }
}

/// The live nodes after `idx` is removed and its neighbours linked together.
pub open spec fn spliced(live: Map<ArenaIdx, OrderNode>, idx: ArenaIdx) -> Map<
    ArenaIdx,
    OrderNode,
> {
    let node = live[idx];
    let rest = live.remove(idx);
    let left = if rest.contains_key(node.prev) {
        rest.insert(node.prev, OrderNode { next: node.next, ..rest[node.prev] })
    } else {
        rest
    };
    if left.contains_key(node.next) {
        left.insert(node.next, OrderNode { prev: node.prev, ..left[node.next] })
    } else {
        left
    }
}

/// What a leaving order does to the live nodes: it is gone, orders stay as they
/// are, and nodes of the other side are untouched.
pub open spec fn left_live(
    live: Map<ArenaIdx, OrderNode>,
    after: Map<ArenaIdx, OrderNode>,
    idx: ArenaIdx,
) -> bool {
    &&& after.dom() == live.dom().remove(idx)
    &&& forall|h: ArenaIdx| #[trigger]
        live.contains_key(h) && h != idx ==> after[h].order == live[h].order && (
        live[h].order.side != live[idx].order.side ==> after[h] == live[h])
}

/// A line after `order` joins it under the handle `idx`.
pub open spec fn joined_line(line: Seq<Entry>, order: Order, idx: ArenaIdx) -> Seq<Entry> {
    line.insert(
        model::rank(order.side, line, order.price) as int,
        Entry { handle: idx, order },
    )
}

/// What a joining order does to the live nodes: it is added, orders stay as
/// they are, and nodes of the other side are untouched.
pub open spec fn joined_live(
    live: Map<ArenaIdx, OrderNode>,
    after: Map<ArenaIdx, OrderNode>,
    order: Order,
    idx: ArenaIdx,
) -> bool {
    &&& !live.contains_key(idx)
    &&& after.dom() == live.dom().insert(idx)
    &&& after[idx].order == order
    &&& forall|h: ArenaIdx| #[trigger]
        live.contains_key(h) ==> after[h].order == live[h].order && (live[h].order.side
            != order.side ==> after[h] == live[h])
}

/// A queue of distinct live handles is no longer than the arena.
proof fn lemma_queue_len(queue: Seq<ArenaIdx>, live: Map<ArenaIdx, OrderNode>)
    requires
        queue.no_duplicates(),
        live.dom().finite(),
        forall|i: int| 0 <= i < queue.len() ==> live.contains_key(#[trigger] queue[i]),
    ensures
        queue.len() <= live.dom().len(),
{
    queue.unique_seq_to_set();
    assert forall|h: ArenaIdx| queue.to_set().contains(h) implies live.dom().contains(h) by {
        let i = queue.index_of(h);
        assert(queue[i] == h);
    }
    vstd::set_lib::lemma_len_subset(queue.to_set(), live.dom());
}

} // verus!
