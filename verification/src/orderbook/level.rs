//! Price levels: first-in-first-out queues threaded through the arena.
use super::model;
use super::model::Entry;
use crate::arena::ArenaIdx;
use crate::types::{Order, Side};
use vstd::prelude::*;

verus! {

/// A resting order with the handles of its neighbours at the same price.
pub struct OrderNode {
    pub order: Order,
    pub next: ArenaIdx,
    pub prev: ArenaIdx,
}

/// The queue of orders resting at one price.
pub struct PriceLevel {
    pub head: ArenaIdx,
    pub tail: ArenaIdx,
    pub len: u32,
    pub total_qty: u64,
    /// The queued handles, oldest first.
    pub queue: Ghost<Seq<ArenaIdx>>,
}

impl Default for PriceLevel {
    fn default() -> (level: PriceLevel)
        ensures
            level.summarises(Seq::empty()),
            level.queue@ == Seq::<ArenaIdx>::empty(),
    {
        let level = PriceLevel {
            head: ArenaIdx::sentinel(),
            tail: ArenaIdx::sentinel(),
            len: 0,
            total_qty: 0,
            queue: Ghost(Seq::empty()),
        };
        assert(model::handles(Seq::empty()) =~= Seq::empty());
        level
    }
}

impl PriceLevel {
    /// The level is a correct summary of the orders `row`, oldest first.
    pub open spec fn summarises(self, row: Seq<Entry>) -> bool {
        &&& self.queue@ == model::handles(row)
        &&& self.head == neighbour(self.queue@, 0)
        &&& self.tail == neighbour(self.queue@, row.len() - 1)
        &&& self.len == row.len()
        &&& self.total_qty == model::total(row)
    }

    /// How many orders the level holds.
    pub fn len(&self) -> (n: usize)
        ensures
            n == self.len,
    {
        self.len as usize
    }

    /// The sum of the quantities of the level's orders.
    pub fn total_qty(&self) -> (qty: u64)
        ensures
            qty == self.total_qty,
    {
        self.total_qty
    }

    /// The handle of the oldest order.
    pub fn head(&self) -> (r: Option<ArenaIdx>)
        ensures
            r == if self.head == ArenaIdx::sentinel() {
                None
            } else {
                Some(self.head)
            },
    {
        if self.head.is_valid() {
            Some(self.head)
        } else {
            None
        }
    }

    pub fn is_empty(&self) -> (empty: bool)
        ensures
            empty == (self.head == ArenaIdx::sentinel()),
    {
        !self.head.is_valid()
    }
}

/// The `i`-th handle of a queue, or the sentinel beyond either end.
pub open spec fn neighbour(queue: Seq<ArenaIdx>, i: int) -> ArenaIdx {
    if 0 <= i < queue.len() {
        queue[i]
    } else {
        ArenaIdx::sentinel()
    }
}

/// The resting order stored under handle `h`.
pub open spec fn entry_of(live: Map<ArenaIdx, OrderNode>, h: ArenaIdx) -> Entry {
    Entry { handle: h, order: live[h].order }
}

/// The resting orders stored under the handles of a queue.
pub open spec fn row_of(queue: Seq<ArenaIdx>, live: Map<ArenaIdx, OrderNode>) -> Seq<Entry> {
    queue.map_values(|h: ArenaIdx| entry_of(live, h))
}

/// The `i`-th node of a queue is live, belongs there and links to its
/// neighbours.
pub open spec fn node_ok(
    queue: Seq<ArenaIdx>,
    live: Map<ArenaIdx, OrderNode>,
    side: Side,
    price: u64,
    i: int,
) -> bool {
    &&& live.contains_key(queue[i])
    &&& live[queue[i]].prev == neighbour(queue, i - 1)
    &&& live[queue[i]].next == neighbour(queue, i + 1)
    &&& live[queue[i]].order.side == side
    &&& live[queue[i]].order.price == price
}

/// A level is a nonempty, correctly linked and correctly summarised queue of
/// the live orders of `side` at `price`.
pub open spec fn level_wf(
    level: PriceLevel,
    live: Map<ArenaIdx, OrderNode>,
    side: Side,
    price: u64,
) -> bool {
    &&& level.queue@.len() > 0
    &&& level.queue@.no_duplicates()
    &&& level.summarises(row_of(level.queue@, live))
    &&& forall|i: int|
        0 <= i < level.queue@.len() ==> #[trigger] node_ok(level.queue@, live, side, price, i)
}

} // verus!
