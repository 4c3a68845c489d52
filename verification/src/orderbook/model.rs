//! The abstract state of an order book: two priority lines of resting orders.
use crate::arena::ArenaIdx;
use crate::types::{IntentHash, Order, Side};
use vstd::prelude::*;

verus! {

/// A resting order together with the handle it is stored under.
pub struct Entry {
    pub handle: ArenaIdx,
    pub order: Order,
}

/// Price `a` trades strictly before price `b` on `side`: the higher bid, the
/// lower ask.
pub open spec fn better(side: Side, a: u64, b: u64) -> bool {
    match side {
        Side::Bid => a > b,
        Side::Ask => a < b,
    }
}

/// The other side of the book.
pub open spec fn opposite_side(side: Side) -> Side {
    match side {
        Side::Bid => Side::Ask,
        Side::Ask => Side::Bid,
    }
}

/// Sum of the quantities of a run of resting orders.
pub open spec fn total(line: Seq<Entry>) -> nat
    decreases line.len(),
{
    if line.len() == 0 {
        0
    } else {
        total(line.drop_last()) + line.last().order.quantity as nat
    }
}

/// The orders of a line that rest at `price`, in line order.
pub open spec fn level_of(line: Seq<Entry>, price: u64) -> Seq<Entry> {
    line.filter(|e: Entry| e.order.price == price)
}

/// The handles of a run of resting orders.
pub open spec fn handles(line: Seq<Entry>) -> Seq<ArenaIdx> {
    line.map_values(|e: Entry| e.handle)
}

/// How many orders at the front of a line trade before a newcomer at `price`:
/// those at a better price, and those at the same price that came earlier.
pub open spec fn rank(side: Side, line: Seq<Entry>, price: u64) -> nat
    decreases line.len(),
{
    if line.len() == 0 || better(side, price, line[0].order.price) {
        0
    } else {
        1 + rank(side, line.skip(1), price)
    }
}

/// The price levels of a line in priority order, each with its total quantity.
pub open spec fn depth(line: Seq<Entry>) -> Seq<(u64, nat)>
    decreases line.len(),
{
    if line.len() == 0 {
        Seq::empty()
    } else {
        let levels = depth(line.drop_last());
        let last = line.last().order;
        if levels.len() > 0 && levels.last().0 == last.price {
            levels.drop_last().push((last.price, levels.last().1 + last.quantity as nat))
        } else {
            levels.push((last.price, last.quantity as nat))
        }
    }
}

/// A line is in price-time priority order and holds orders of one side only.
pub open spec fn line_wf(side: Side, line: Seq<Entry>) -> bool {
    &&& forall|i: int| 0 <= i < line.len() ==> (#[trigger] line[i]).order.side == side
    &&& forall|i: int, j: int|
        0 <= i < j < line.len() ==> !better(
            side,
            (#[trigger] line[j]).order.price,
            (#[trigger] line[i]).order.price,
        )
}

/// The abstract state of a book.
#[verifier::ext_equal]
pub struct BookModel {
    /// Resting buy orders, first to trade first.
    pub bids: Seq<Entry>,
    /// Resting sell orders, first to trade first.
    pub asks: Seq<Entry>,
    /// The handles that are free to be issued; the last one goes out next.
    pub spare: Seq<ArenaIdx>,
}

impl BookModel {
    pub open spec fn side(self, side: Side) -> Seq<Entry> {
        match side {
            Side::Bid => self.bids,
            Side::Ask => self.asks,
        }
    }

    pub open spec fn with_side(self, side: Side, line: Seq<Entry>) -> BookModel {
        match side {
            Side::Bid => BookModel { bids: line, ..self },
            Side::Ask => BookModel { asks: line, ..self },
        }
    }

    /// Both lines are in priority order, no intent hash and no slot, in use or
    /// spare, occurs twice, and every handle is valid.
    pub open spec fn wf(self) -> bool {
        &&& line_wf(Side::Bid, self.bids)
        &&& line_wf(Side::Ask, self.asks)
        &&& self.distinct()
        &&& self.handles_valid()
    }

    /// No handle, in use or spare, is at generation zero.
    pub open spec fn handles_valid(self) -> bool {
        &&& forall|s: Side, i: int|
            0 <= i < self.side(s).len() ==> (#[trigger] self.side(s)[i]).handle.generation != 0
        &&& forall|k: int| 0 <= k < self.spare.len() ==> (#[trigger] self.spare[k]).generation != 0
    }

    pub open spec fn distinct(self) -> bool {
        &&& forall|s: Side, i: int, t: Side, j: int|
            #![trigger self.side(s)[i], self.side(t)[j]]
            0 <= i < self.side(s).len() && 0 <= j < self.side(t).len() && (s, i) != (t, j) ==> {
                &&& self.side(s)[i].order.intent_hash != self.side(t)[j].order.intent_hash
                &&& self.side(s)[i].handle.slot != self.side(t)[j].handle.slot
            }
        &&& forall|s: Side, i: int, k: int|
            #![trigger self.side(s)[i], self.spare[k]]
            0 <= i < self.side(s).len() && 0 <= k < self.spare.len()
                ==> self.side(s)[i].handle.slot != self.spare[k].slot
        &&& forall|i: int, j: int|
            0 <= i < j < self.spare.len() ==> (#[trigger] self.spare[i]).slot != (
            #[trigger] self.spare[j]).slot
    }

    /// Some resting order carries `hash`.
    pub open spec fn has_intent(self, hash: IntentHash) -> bool {
        exists|s: Side, i: int|
            0 <= i < self.side(s).len() && (#[trigger] self.side(s)[i]).order.intent_hash == hash
    }

    /// The book after `order` joins the back of its price level under the next
    /// spare handle.
    pub open spec fn joined(self, order: Order) -> BookModel {
        let line = self.side(order.side);
        let entry = Entry { handle: self.spare.last(), order };
        let moved = line.insert(rank(order.side, line, order.price) as int, entry);
        BookModel { spare: self.spare.drop_last(), ..self.with_side(order.side, moved) }
    }

    /// The book after the `i`-th order of `side` leaves.
    pub open spec fn without(self, side: Side, i: int) -> BookModel {
        let line = self.side(side);
        BookModel {
            spare: self.spare.push(line[i].handle.bumped()),
            ..self.with_side(side, line.remove(i))
        }
    }

    /// The book after the first order of `side` shrinks by `qty`.
    pub open spec fn reduced(self, side: Side, qty: u64) -> BookModel {
        let line = self.side(side);
        self.with_side(side, line.update(0, shrunk(line[0], qty)))
    }

    /// The best bid meets or exceeds the best ask.
    pub open spec fn crossed(self) -> bool {
        &&& self.bids.len() > 0
        &&& self.asks.len() > 0
        &&& self.bids[0].order.price >= self.asks[0].order.price
    }
}

/// `entry` with `qty` taken off its quantity.
pub open spec fn shrunk(entry: Entry, qty: u64) -> Entry {
    Entry {
        order: Order { quantity: (entry.order.quantity - qty) as u64, ..entry.order },
        ..entry
    }
}

/// Concatenation of the rows of `prices`, in that order.
pub open spec fn chain(prices: Seq<u64>, rows: Map<u64, Seq<Entry>>) -> Seq<Entry>
    decreases prices.len(),
{
    if prices.len() == 0 {
        Seq::empty()
    } else {
        chain(prices.drop_last(), rows) + rows[prices.last()]
    }
}

/// `prices` is strictly ordered by priority.
pub open spec fn ranked(side: Side, prices: Seq<u64>) -> bool {
    forall|i: int, j: int|
        0 <= i < j < prices.len() ==> better(side, #[trigger] prices[i], #[trigger] prices[j])
}

/// Every row holds orders of `side` at its own price.
pub open spec fn rows_wf(side: Side, rows: Map<u64, Seq<Entry>>) -> bool {
    forall|p: u64, i: int|
        #![trigger rows[p][i]]
        rows.contains_key(p) && 0 <= i < rows[p].len() ==> rows[p][i].order.price == p
            && rows[p][i].order.side == side
}

pub proof fn lemma_total_add(a: Seq<Entry>, b: Seq<Entry>)
    ensures
        total(a + b) == total(a) + total(b),
    decreases b.len(),
{
    if b.len() == 0 {
        assert(a + b =~= a);
    } else {
        assert((a + b).drop_last() =~= a + b.drop_last());
        lemma_total_add(a, b.drop_last());
    }
}

pub proof fn lemma_total_remove(a: Seq<Entry>, i: int)
    requires
        0 <= i < a.len(),
    ensures
        total(a.remove(i)) == total(a) - a[i].order.quantity,
{
    assert(a =~= a.take(i) + seq![a[i]] + a.skip(i + 1));
    assert(a.remove(i) =~= a.take(i) + a.skip(i + 1));
    lemma_total_add(a.take(i) + seq![a[i]], a.skip(i + 1));
    lemma_total_add(a.take(i), seq![a[i]]);
    lemma_total_add(a.take(i), a.skip(i + 1));
    lemma_total_one(a[i]);
}

pub proof fn lemma_total_one(entry: Entry)
    ensures
        total(seq![entry]) == entry.order.quantity,
{
    assert(seq![entry].drop_last() =~= Seq::empty());
    assert(total(seq![entry].drop_last()) == 0);
}

pub proof fn lemma_total_shrunk(a: Seq<Entry>, qty: u64)
    requires
        0 < a.len(),
        qty <= a[0].order.quantity,
    ensures
        total(a.update(0, shrunk(a[0], qty))) == total(a) - qty,
    decreases a.len(),
{
    let b = a.update(0, shrunk(a[0], qty));
    if a.len() == 1 {
        assert(a.drop_last() =~= Seq::empty());
        assert(b.drop_last() =~= Seq::empty());
    } else {
        assert(b.drop_last() =~= a.drop_last().update(0, shrunk(a[0], qty)));
        lemma_total_shrunk(a.drop_last(), qty);
    }
}

/// The chain depends only on the rows that it names.
pub proof fn lemma_chain_frame(
    prices: Seq<u64>,
    rows: Map<u64, Seq<Entry>>,
    other: Map<u64, Seq<Entry>>,
)
    requires
        forall|i: int| 0 <= i < prices.len() ==> rows[#[trigger] prices[i]] == other[prices[i]],
    ensures
        chain(prices, rows) == chain(prices, other),
    decreases prices.len(),
{
    if prices.len() > 0 {
        lemma_chain_frame(prices.drop_last(), rows, other);
        assert(rows[prices.last()] == other[prices.last()]);
    }
}

pub proof fn lemma_chain_add(a: Seq<u64>, b: Seq<u64>, rows: Map<u64, Seq<Entry>>)
    ensures
        chain(a + b, rows) == chain(a, rows) + chain(b, rows),
    decreases b.len(),
{
    if b.len() == 0 {
        assert(a + b =~= a);
        assert(chain(a, rows) + chain(b, rows) =~= chain(a, rows));
    } else {
        assert((a + b).drop_last() =~= a + b.drop_last());
        lemma_chain_add(a, b.drop_last(), rows);
        assert(chain(a, rows) + chain(b, rows) =~= chain(a, rows) + chain(b.drop_last(), rows)
            + rows[b.last()]);
    }
}

/// A chain splits around any one of its rows.
pub proof fn lemma_chain_split(prices: Seq<u64>, rows: Map<u64, Seq<Entry>>, k: int)
    requires
        0 <= k < prices.len(),
    ensures
        chain(prices, rows) == chain(prices.take(k), rows) + rows[prices[k]] + chain(
            prices.skip(k + 1),
            rows,
        ),
{
    assert(prices =~= prices.take(k).push(prices[k]) + prices.skip(k + 1));
    lemma_chain_add(prices.take(k).push(prices[k]), prices.skip(k + 1), rows);
    assert(prices.take(k).push(prices[k]).drop_last() =~= prices.take(k));
}

/// Where an entry of a chain comes from.
pub proof fn lemma_chain_origin(prices: Seq<u64>, rows: Map<u64, Seq<Entry>>, i: int) -> (r: (
    int,
    int,
))
    requires
        0 <= i < chain(prices, rows).len(),
    ensures
        0 <= r.0 < prices.len(),
        0 <= r.1 < rows[prices[r.0]].len(),
        chain(prices, rows)[i] == rows[prices[r.0]][r.1],
        i == chain(prices.take(r.0), rows).len() + r.1,
    decreases prices.len(),
{
    let front = chain(prices.drop_last(), rows);
    if i < front.len() {
        let r = lemma_chain_origin(prices.drop_last(), rows, i);
        assert(prices.drop_last().take(r.0) =~= prices.take(r.0));
        r
    } else {
        let k = prices.len() - 1;
        assert(prices.take(k) =~= prices.drop_last());
        (k, i - front.len())
    }
}

/// Where an entry of a row ends up in the chain.
pub proof fn lemma_chain_place(prices: Seq<u64>, rows: Map<u64, Seq<Entry>>, k: int, j: int)
    requires
        0 <= k < prices.len(),
        0 <= j < rows[prices[k]].len(),
    ensures
        chain(prices.take(k), rows).len() + j < chain(prices, rows).len(),
        chain(prices, rows)[chain(prices.take(k), rows).len() + j] == rows[prices[k]][j],
{
    lemma_chain_split(prices, rows, k);
}

/// A chain over strictly ranked prices is a line in priority order.
pub proof fn lemma_chain_is_line(side: Side, prices: Seq<u64>, rows: Map<u64, Seq<Entry>>)
    requires
        ranked(side, prices),
        rows_wf(side, rows),
        forall|i: int| 0 <= i < prices.len() ==> rows.contains_key(#[trigger] prices[i]),
    ensures
        line_wf(side, chain(prices, rows)),
    decreases prices.len(),
{
    if prices.len() > 0 {
        let front = prices.drop_last();
        lemma_chain_is_line(side, front, rows);
        let a = chain(front, rows);
        let b = rows[prices.last()];
        assert forall|i: int| 0 <= i < a.len() implies better(
            side,
            (#[trigger] a[i]).order.price,
            prices.last(),
        ) by {
            let r = lemma_chain_origin(front, rows, i);
            assert(rows[front[r.0]][r.1].order.price == front[r.0]);
        }
    }
}

/// The level of a price in a chain is the row of that price.
pub proof fn lemma_chain_level(
    side: Side,
    prices: Seq<u64>,
    rows: Map<u64, Seq<Entry>>,
    price: u64,
)
    requires
        ranked(side, prices),
        rows_wf(side, rows),
        forall|i: int| 0 <= i < prices.len() ==> rows.contains_key(#[trigger] prices[i]),
    ensures
        level_of(chain(prices, rows), price) == if prices.contains(price) {
            rows[price]
        } else {
            Seq::empty()
        },
    decreases prices.len(),
{
    let at = |e: Entry| e.order.price == price;
    if prices.len() == 0 {
        assert(level_of(chain(prices, rows), price) =~= Seq::empty()) by {
            reveal(Seq::filter);
        }
    } else {
        let front = prices.drop_last();
        let last = prices.last();
        lemma_chain_level(side, front, rows, price);
        Seq::filter_distributes_over_add(chain(front, rows), rows[last], at);
        if price == last {
            if front.contains(price) {
                let i = front.index_of(price);
                assert(better(side, prices[i], prices[prices.len() - 1]));
            }
            assert(!front.contains(price));
            lemma_filter_all(rows[last], at);
            assert(prices[prices.len() - 1] == price);
        } else {
            lemma_filter_none(rows[last], at);
            if front.contains(price) {
                assert(prices[front.index_of(price)] == price);
            }
            if prices.contains(price) {
                let i = prices.index_of(price);
                assert(front[i] == price);
            }
        }
        assert(level_of(chain(prices, rows), price) =~= level_of(chain(front, rows), price)
            + rows[last].filter(at));
        assert(Seq::<Entry>::empty() + rows[last] =~= rows[last]);
    }
}

proof fn lemma_filter_all(s: Seq<Entry>, keep: spec_fn(Entry) -> bool)
    requires
        forall|i: int| 0 <= i < s.len() ==> keep(#[trigger] s[i]),
    ensures
        s.filter(keep) == s,
    decreases s.len(),
{
    reveal(Seq::filter);
    if s.len() > 0 {
        lemma_filter_all(s.drop_last(), keep);
        assert(keep(s[s.len() - 1]));
        assert(s.drop_last().push(s.last()) =~= s);
    }
}

proof fn lemma_filter_none(s: Seq<Entry>, keep: spec_fn(Entry) -> bool)
    requires
        forall|i: int| 0 <= i < s.len() ==> !keep(#[trigger] s[i]),
    ensures
        s.filter(keep) == Seq::<Entry>::empty(),
    decreases s.len(),
{
    reveal(Seq::filter);
    if s.len() > 0 {
        lemma_filter_none(s.drop_last(), keep);
        assert(!keep(s[s.len() - 1]));
    }
}

/// The depth of a chain lists its prices with the totals of their rows.
pub proof fn lemma_chain_depth(side: Side, prices: Seq<u64>, rows: Map<u64, Seq<Entry>>)
    requires
        ranked(side, prices),
        rows_wf(side, rows),
        forall|i: int|
            0 <= i < prices.len() ==> rows.contains_key(#[trigger] prices[i])
                && rows[prices[i]].len() > 0,
    ensures
        depth(chain(prices, rows)) == prices.map_values(|p: u64| (p, total(rows[p]))),
    decreases prices.len(),
{
    let want = prices.map_values(|p: u64| (p, total(rows[p])));
    if prices.len() == 0 {
        assert(want =~= Seq::empty());
    } else {
        let front = prices.drop_last();
        let last = prices.last();
        lemma_chain_depth(side, front, rows);
        let a = chain(front, rows);
        let levels = depth(a);
        assert(levels.len() > 0 ==> levels.last().0 != last) by {
            if levels.len() > 0 {
                assert(levels.last().0 == front.last());
                assert(better(side, prices[prices.len() - 2], prices[prices.len() - 1]));
            }
        }
        assert(rows.contains_key(prices[prices.len() - 1]));
        assert(rows[prices[prices.len() - 1]].len() > 0);
        lemma_depth_of_level(a, rows[last], last);
        assert(want =~= levels.push((last, total(rows[last]))));
    }
}

proof fn lemma_depth_of_level(a: Seq<Entry>, row: Seq<Entry>, price: u64)
    requires
        row.len() > 0,
        forall|i: int| 0 <= i < row.len() ==> (#[trigger] row[i]).order.price == price,
        depth(a).len() > 0 ==> depth(a).last().0 != price,
    ensures
        depth(a + row) == depth(a).push((price, total(row))),
    decreases row.len(),
{
    let front = row.drop_last();
    assert((a + row).drop_last() =~= a + front);
    assert((a + row).last() == row[row.len() - 1]);
    if front.len() == 0 {
        assert(a + front =~= a);
        assert(total(front) == 0);
    } else {
        lemma_depth_of_level(a, front, price);
        let levels = depth(a + front);
        assert(levels.drop_last() =~= depth(a));
    }
}

/// Where a newcomer at `price` goes in a chain: behind every row that is at
/// least as good.
pub proof fn lemma_chain_rank(side: Side, line: Seq<Entry>, price: u64, n: int)
    requires
        0 <= n <= line.len(),
        forall|i: int| 0 <= i < n ==> !better(side, price, (#[trigger] line[i]).order.price),
        n < line.len() ==> better(side, price, line[n].order.price),
    ensures
        rank(side, line, price) == n,
    decreases n,
{
    if n > 0 {
        assert(!better(side, price, line[0].order.price));
        let rest = line.skip(1);
        assert forall|i: int| 0 <= i < n - 1 implies !better(
            side,
            price,
            (#[trigger] rest[i]).order.price,
        ) by {
            assert(rest[i] == line[i + 1]);
        }
        lemma_chain_rank(side, rest, price, n - 1);
    }
}

/// How many of the ranked `prices` are better than `price`.
pub open spec fn price_rank(side: Side, prices: Seq<u64>, price: u64) -> nat
    decreases prices.len(),
{
    if prices.len() == 0 {
        0
    } else if better(side, prices.last(), price) {
        prices.len()
    } else {
        price_rank(side, prices.drop_last(), price)
    }
}

pub proof fn lemma_price_rank(side: Side, prices: Seq<u64>, price: u64)
    requires
        ranked(side, prices),
    ensures
        0 <= price_rank(side, prices, price) <= prices.len(),
        forall|i: int|
            0 <= i < price_rank(side, prices, price) ==> better(side, #[trigger] prices[i], price),
        forall|i: int|
            price_rank(side, prices, price) <= i < prices.len() ==> !better(
                side,
                #[trigger] prices[i],
                price,
            ),
    decreases prices.len(),
{
    if prices.len() > 0 {
        if !better(side, prices.last(), price) {
            let front = prices.drop_last();
            lemma_price_rank(side, front, price);
            let n = price_rank(side, front, price);
            assert forall|i: int| 0 <= i < n implies better(side, #[trigger] prices[i], price) by {
                assert(prices[i] == front[i]);
            }
            assert forall|i: int| n <= i < prices.len() implies !better(
                side,
                #[trigger] prices[i],
                price,
            ) by {
                if i < front.len() {
                    assert(prices[i] == front[i]);
                }
            }
        }
    }
}

/// The hypotheses shared by the chain lemmas below.
pub open spec fn chain_wf(side: Side, prices: Seq<u64>, rows: Map<u64, Seq<Entry>>) -> bool {
    &&& ranked(side, prices)
    &&& rows_wf(side, rows)
    &&& forall|p: u64| #[trigger] rows.contains_key(p) <==> prices.contains(p)
    &&& forall|p: u64| #[trigger] rows.contains_key(p) ==> rows[p].len() > 0
}

pub proof fn lemma_ranked_distinct(side: Side, prices: Seq<u64>, i: int, j: int)
    requires
        ranked(side, prices),
        0 <= i < prices.len(),
        0 <= j < prices.len(),
        i != j,
    ensures
        prices[i] != prices[j],
{
    if i < j {
        assert(better(side, prices[i], prices[j]));
    } else {
        assert(better(side, prices[j], prices[i]));
    }
}

/// The entries before the `k`-th price level all have better prices, those
/// after it worse ones.
pub proof fn lemma_chain_sides(side: Side, prices: Seq<u64>, rows: Map<u64, Seq<Entry>>, k: int)
    requires
        chain_wf(side, prices, rows),
        0 <= k <= prices.len(),
    ensures
        forall|i: int|
            0 <= i < chain(prices.take(k), rows).len() ==> prices.take(k).contains(
                (#[trigger] chain(prices.take(k), rows)[i]).order.price,
            ),
        forall|i: int|
            0 <= i < chain(prices.skip(k), rows).len() ==> prices.skip(k).contains(
                (#[trigger] chain(prices.skip(k), rows)[i]).order.price,
            ),
{
    let a = prices.take(k);
    let b = prices.skip(k);
    assert forall|i: int| 0 <= i < chain(a, rows).len() implies a.contains(
        (#[trigger] chain(a, rows)[i]).order.price,
    ) by {
        let r = lemma_chain_origin(a, rows, i);
        assert(prices.contains(prices[r.0]));
        assert(rows[a[r.0]][r.1].order.price == a[r.0]);
    }
    assert forall|i: int| 0 <= i < chain(b, rows).len() implies b.contains(
        (#[trigger] chain(b, rows)[i]).order.price,
    ) by {
        let r = lemma_chain_origin(b, rows, i);
        assert(b[r.0] == prices[k + r.0]);
        assert(prices.contains(prices[k + r.0]));
        assert(rows[b[r.0]][r.1].order.price == b[r.0]);
    }
}

/// An order joins a chain whose price level it opens.
pub proof fn lemma_chain_join_new(
    side: Side,
    prices: Seq<u64>,
    rows: Map<u64, Seq<Entry>>,
    entry: Entry,
)
    requires
        chain_wf(side, prices, rows),
        entry.order.side == side,
        !rows.contains_key(entry.order.price),
    ensures
        ({
            let p = entry.order.price;
            let after = prices.insert(price_rank(side, prices, p) as int, p);
            &&& chain_wf(side, after, rows.insert(p, seq![entry]))
            &&& chain(after, rows.insert(p, seq![entry])) == chain(prices, rows).insert(
                rank(side, chain(prices, rows), p) as int,
                entry,
            )
        }),
{
    let p = entry.order.price;
    let k = price_rank(side, prices, p) as int;
    let after = prices.insert(k, p);
    let rows2 = rows.insert(p, seq![entry]);
    lemma_price_rank(side, prices, p);
    assert(!prices.contains(p));
    assert forall|i: int| k <= i < prices.len() implies better(side, p, #[trigger] prices[i]) by {
        assert(prices[i] != p);
    }
    assert forall|i: int, j: int| 0 <= i < j < after.len() implies better(
        side,
        #[trigger] after[i],
        #[trigger] after[j],
    ) by {
        let i0 = if i < k { i } else { i - 1 };
        let j0 = if j < k { j } else { j - 1 };
        if i != k && j != k {
            assert(after[i] == prices[i0] && after[j] == prices[j0]);
        }
    }
    assert forall|q: u64| #[trigger] rows2.contains_key(q) <==> after.contains(q) by {
        assert(after[k] == p);
        if prices.contains(q) {
            let i = prices.index_of(q);
            assert(after[if i < k { i } else { i + 1 }] == q);
        }
        if after.contains(q) && q != p {
            let i = after.index_of(q);
            assert(prices[if i < k { i } else { i - 1 }] == q);
        }
    }
    let a = prices.take(k);
    let b = prices.skip(k);
    assert(prices =~= a + b);
    assert(after =~= a.push(p) + b);
    lemma_chain_add(a, b, rows);
    lemma_chain_add(a.push(p), b, rows2);
    assert(a.push(p).drop_last() =~= a);
    lemma_chain_frame(a, rows2, rows);
    lemma_chain_frame(b, rows2, rows);
    let line = chain(prices, rows);
    let n = chain(a, rows).len() as int;
    lemma_chain_sides(side, prices, rows, k);
    assert forall|i: int| 0 <= i < n implies !better(side, p, (#[trigger] line[i]).order.price) by {
        assert(line[i] == chain(a, rows)[i]);
        let j = a.index_of(chain(a, rows)[i].order.price);
        assert(a[j] == prices[j]);
    }
    if n < line.len() {
        assert(line[n] == chain(b, rows)[0]);
        let j = b.index_of(chain(b, rows)[0].order.price);
        assert(b[j] == prices[k + j]);
    }
    lemma_chain_rank(side, line, p, n);
    assert(chain(after, rows2) =~= line.insert(n, entry));
}

/// An order joins the back of an existing price level.
pub proof fn lemma_chain_join_level(
    side: Side,
    prices: Seq<u64>,
    rows: Map<u64, Seq<Entry>>,
    entry: Entry,
)
    requires
        chain_wf(side, prices, rows),
        entry.order.side == side,
        rows.contains_key(entry.order.price),
    ensures
        ({
            let p = entry.order.price;
            let after = rows.insert(p, rows[p].push(entry));
            &&& chain_wf(side, prices, after)
            &&& chain(prices, after) == chain(prices, rows).insert(
                rank(side, chain(prices, rows), p) as int,
                entry,
            )
        }),
{
    let p = entry.order.price;
    let k = prices.index_of(p);
    let rows2 = rows.insert(p, rows[p].push(entry));
    assert(prices[k] == p);
    assert forall|q: u64, i: int|
        #![trigger rows2[q][i]]
        rows2.contains_key(q) && 0 <= i < rows2[q].len() implies rows2[q][i].order.price == q
        && rows2[q][i].order.side == side by {
        if q != p || i < rows[p].len() {
            assert(rows2[q][i] == rows[q][i]);
        }
    }
    let a = prices.take(k);
    let b = prices.skip(k + 1);
    lemma_chain_split(prices, rows, k);
    lemma_chain_split(prices, rows2, k);
    assert forall|i: int| 0 <= i < a.len() implies rows2[#[trigger] a[i]] == rows[a[i]] by {
        lemma_ranked_distinct(side, prices, i, k);
    }
    assert forall|i: int| 0 <= i < b.len() implies rows2[#[trigger] b[i]] == rows[b[i]] by {
        lemma_ranked_distinct(side, prices, k + 1 + i, k);
    }
    lemma_chain_frame(a, rows2, rows);
    lemma_chain_frame(b, rows2, rows);
    let line = chain(prices, rows);
    let n0 = chain(a, rows).len() as int;
    let n = n0 + rows[p].len();
    lemma_chain_sides(side, prices, rows, k);
    lemma_chain_sides(side, prices, rows, k + 1);
    assert forall|i: int| 0 <= i < n implies !better(side, p, (#[trigger] line[i]).order.price) by {
        if i < n0 {
            assert(line[i] == chain(a, rows)[i]);
            let j = a.index_of(chain(a, rows)[i].order.price);
            assert(a[j] == prices[j]);
            assert(better(side, prices[j], prices[k]));
        } else {
            assert(line[i] == rows[p][i - n0]);
        }
    }
    if n < line.len() {
        assert(line[n] == chain(b, rows)[0]);
        let j = b.index_of(chain(b, rows)[0].order.price);
        assert(b[j] == prices[k + 1 + j]);
        assert(better(side, prices[k], prices[k + 1 + j]));
    }
    lemma_chain_rank(side, line, p, n);
    assert(chain(prices, rows2) =~= line.insert(n, entry));
}

/// An order changes within its price level.
pub proof fn lemma_chain_level_changed(
    side: Side,
    prices: Seq<u64>,
    rows: Map<u64, Seq<Entry>>,
    price: u64,
    row: Seq<Entry>,
)
    requires
        chain_wf(side, prices, rows),
        rows.contains_key(price),
        row.len() > 0,
        forall|i: int|
            0 <= i < row.len() ==> (#[trigger] row[i]).order.price == price && row[i].order.side
                == side,
    ensures
        chain_wf(side, prices, rows.insert(price, row)),
        ({
            let a = chain(prices.take(prices.index_of(price)), rows);
            let b = chain(prices.skip(prices.index_of(price) + 1), rows);
            &&& chain(prices, rows) == a + rows[price] + b
            &&& chain(prices, rows.insert(price, row)) == a + row + b
        }),
{
    let k = prices.index_of(price);
    let rows2 = rows.insert(price, row);
    assert(prices[k] == price);
    assert forall|q: u64, i: int|
        #![trigger rows2[q][i]]
        rows2.contains_key(q) && 0 <= i < rows2[q].len() implies rows2[q][i].order.price == q
        && rows2[q][i].order.side == side by {
        if q != price {
            assert(rows2[q][i] == rows[q][i]);
        }
    }
    let a = prices.take(k);
    let b = prices.skip(k + 1);
    lemma_chain_split(prices, rows, k);
    lemma_chain_split(prices, rows2, k);
    assert forall|i: int| 0 <= i < a.len() implies rows2[#[trigger] a[i]] == rows[a[i]] by {
        lemma_ranked_distinct(side, prices, i, k);
    }
    assert forall|i: int| 0 <= i < b.len() implies rows2[#[trigger] b[i]] == rows[b[i]] by {
        lemma_ranked_distinct(side, prices, k + 1 + i, k);
    }
    lemma_chain_frame(a, rows2, rows);
    lemma_chain_frame(b, rows2, rows);
}

/// A price level goes away.
pub proof fn lemma_chain_level_gone(
    side: Side,
    prices: Seq<u64>,
    rows: Map<u64, Seq<Entry>>,
    price: u64,
)
    requires
        chain_wf(side, prices, rows),
        rows.contains_key(price),
    ensures
        chain_wf(side, prices.remove(prices.index_of(price)), rows.remove(price)),
        ({
            let a = chain(prices.take(prices.index_of(price)), rows);
            let b = chain(prices.skip(prices.index_of(price) + 1), rows);
            &&& chain(prices, rows) == a + rows[price] + b
            &&& chain(prices.remove(prices.index_of(price)), rows.remove(price)) == a + b
        }),
{
    let k = prices.index_of(price);
    let after = prices.remove(k);
    let rows2 = rows.remove(price);
    assert(prices[k] == price);
    assert forall|i: int, j: int| 0 <= i < j < after.len() implies better(
        side,
        #[trigger] after[i],
        #[trigger] after[j],
    ) by {
        let i0 = if i < k { i } else { i + 1 };
        let j0 = if j < k { j } else { j + 1 };
        assert(after[i] == prices[i0] && after[j] == prices[j0]);
    }
    assert forall|q: u64| #[trigger] rows2.contains_key(q) <==> after.contains(q) by {
        if prices.contains(q) && q != price {
            let i = prices.index_of(q);
            assert(after[if i < k { i } else { i - 1 }] == q);
        }
        if after.contains(q) {
            let i = after.index_of(q);
            let i0 = if i < k { i } else { i + 1 };
            assert(prices[i0] == q);
            lemma_ranked_distinct(side, prices, i0, k);
        }
    }
    assert forall|q: u64, i: int|
        #![trigger rows2[q][i]]
        rows2.contains_key(q) && 0 <= i < rows2[q].len() implies rows2[q][i].order.price == q
        && rows2[q][i].order.side == side by {
        assert(rows2[q][i] == rows[q][i]);
    }
    let a = prices.take(k);
    let b = prices.skip(k + 1);
    lemma_chain_split(prices, rows, k);
    assert(after =~= a + b);
    lemma_chain_add(a, b, rows2);
    assert forall|i: int| 0 <= i < a.len() implies rows2[#[trigger] a[i]] == rows[a[i]] by {
        lemma_ranked_distinct(side, prices, i, k);
    }
    assert forall|i: int| 0 <= i < b.len() implies rows2[#[trigger] b[i]] == rows[b[i]] by {
        lemma_ranked_distinct(side, prices, k + 1 + i, k);
    }
    lemma_chain_frame(a, rows2, rows);
    lemma_chain_frame(b, rows2, rows);
}

/// Two ranked price lists with the same members are the same list.
pub proof fn lemma_ranked_unique(side: Side, a: Seq<u64>, b: Seq<u64>)
    requires
        ranked(side, a),
        ranked(side, b),
        forall|p: u64| #[trigger] a.contains(p) <==> b.contains(p),
    ensures
        a == b,
    decreases a.len(),
{
    if a.len() == 0 {
        if b.len() > 0 {
            assert(b.contains(b[0]));
            assert(a.contains(b[0]));
        }
        assert(a =~= b);
    } else {
        let m = a.len() - 1;
        assert(a.contains(a[m]));
        let j = b.index_of(a[m]);
        let n = b.len() - 1;
        if j < n {
            assert(better(side, b[j], b[n]));
            assert(b.contains(b[n]));
            assert(a.contains(b[n]));
            let i = a.index_of(b[n]);
            if i < m {
                assert(better(side, a[i], a[m]));
            }
        }
        let a2 = a.drop_last();
        let b2 = b.drop_last();
        assert forall|p: u64| #[trigger] a2.contains(p) <==> b2.contains(p) by {
            if a2.contains(p) {
                let i = a2.index_of(p);
                assert(a[i] == p);
                assert(better(side, a[i], a[m]));
                assert(a.contains(p));
                let k = b.index_of(p);
                assert(b2[k] == p);
            }
            if b2.contains(p) {
                let i = b2.index_of(p);
                assert(b[i] == p);
                assert(better(side, b[i], b[n]));
                assert(b.contains(p));
                assert(a.contains(p));
                let k = a.index_of(p);
                assert(a2[k] == p);
            }
        }
        lemma_ranked_unique(side, a2, b2);
        assert(a =~= a2.push(a[m]));
        assert(b =~= b2.push(b[n]));
    }
}

/// The first `max` levels of a line, or all of them where there are fewer.
pub open spec fn top_depth(line: Seq<Entry>, max: nat) -> Seq<(u64, nat)> {
    if depth(line).len() <= max {
        depth(line)
    } else {
        depth(line).take(max as int)
    }
}

/// Levels with machine quantities, as mathematical ones.
pub open spec fn widened(levels: Seq<(u64, u64)>) -> Seq<(u64, nat)> {
    levels.map_values(|l: (u64, u64)| (l.0, l.1 as nat))
}

/// The level of the best price of a line starts with the first order of the
/// line; a better price has no level.
pub proof fn lemma_front_level(side: Side, line: Seq<Entry>, price: u64)
    requires
        line_wf(side, line),
        line.len() > 0 ==> !better(side, line[0].order.price, price),
    ensures
        if line.len() > 0 && line[0].order.price == price {
            &&& level_of(line, price).len() > 0
            &&& level_of(line, price)[0] == line[0]
        } else {
            level_of(line, price).len() == 0
        },
    decreases line.len(),
{
    reveal(Seq::filter);
    if line.len() > 0 {
        let front = line.drop_last();
        if front.len() > 0 {
            assert(front[0] == line[0]);
        }
        assert(line_wf(side, front));
        lemma_front_level(side, front, price);
        if line.len() > 1 {
            assert(!better(side, line[line.len() - 1].order.price, line[0].order.price));
        }
    }
}

} // verus!
