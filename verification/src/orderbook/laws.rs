//! Laws of the order book, stated over its abstract state.
use super::model;
use super::model::{BookModel, Entry};
use super::PriceLevel;
use crate::arena::ArenaIdx;
use crate::types::{IntentHash, Order, Side};
use vstd::prelude::*;

verus! {

/// Price-time priority: a newcomer stands behind every order at a price at
/// least as good and ahead of every order at a worse price.
pub proof fn law_newcomer_keeps_priority(side: Side, line: Seq<Entry>, price: u64)
    requires
        model::line_wf(side, line),
    ensures
        model::rank(side, line, price) <= line.len(),
        forall|i: int|
            0 <= i < model::rank(side, line, price) ==> !model::better(
                side,
                price,
                (#[trigger] line[i]).order.price,
            ),
        forall|i: int|
            model::rank(side, line, price) <= i < line.len() ==> model::better(
                side,
                price,
                (#[trigger] line[i]).order.price,
            ),
    decreases line.len(),
{
    if line.len() > 0 && !model::better(side, price, line[0].order.price) {
        let rest = line.skip(1);
        assert forall|i: int| 0 <= i < rest.len() implies (#[trigger] rest[i]).order.side
            == side by {
            assert(rest[i] == line[i + 1]);
        }
        assert forall|i: int, j: int| 0 <= i < j < rest.len() implies !model::better(
            side,
            (#[trigger] rest[j]).order.price,
            (#[trigger] rest[i]).order.price,
        ) by {
            assert(rest[i] == line[i + 1] && rest[j] == line[j + 1]);
        }
        law_newcomer_keeps_priority(side, rest, price);
        let n = model::rank(side, line, price);
        assert forall|i: int| 0 <= i < n implies !model::better(
            side,
            price,
            (#[trigger] line[i]).order.price,
        ) by {
            if i > 0 {
                assert(line[i] == rest[i - 1]);
            }
        }
        assert forall|i: int| n <= i < line.len() implies model::better(
            side,
            price,
            (#[trigger] line[i]).order.price,
        ) by {
            assert(line[i] == rest[i - 1]);
        }
    } else if line.len() > 0 {
        assert forall|i: int| 0 <= i < line.len() implies model::better(
            side,
            price,
            (#[trigger] line[i]).order.price,
        ) by {
            if i > 0 {
                assert(!model::better(side, line[i].order.price, line[0].order.price));
            }
        }
    }
}

/// Inserting keeps the handles valid.
proof fn lemma_insert_keeps_handles(book: BookModel, order: Order)
    requires
        model::line_wf(order.side, book.side(order.side)),
        book.handles_valid(),
        book.spare.len() > 0,
    ensures
        book.joined(order).handles_valid(),
{
    let side = order.side;
    let after = book.joined(order);
    law_newcomer_keeps_priority(side, book.side(side), order.price);
    let n = model::rank(side, book.side(side), order.price) as int;
    let idx = book.spare.last();
    assert forall|s: Side, i: int| 0 <= i < after.side(s).len() implies (#[trigger] after.side(
        s,
    )[i]).handle.generation != 0 by {
        if (s, i) == (side, n) {
            assert(book.spare[book.spare.len() - 1] == idx);
        } else {
            let i0 = if s == side && i > n { i - 1 } else { i };
            assert(after.side(s)[i] == book.side(s)[i0]);
        }
    }
    assert forall|k: int| 0 <= k < after.spare.len() implies (#[trigger] after.spare[k]).generation
        != 0 by {
        assert(after.spare[k] == book.spare[k]);
    }
}

/// Taking an order off keeps the handles valid.
proof fn lemma_removal_keeps_handles(book: BookModel, side: Side, i: int)
    requires
        book.handles_valid(),
        0 <= i < book.side(side).len(),
    ensures
        book.without(side, i).handles_valid(),
{
    let after = book.without(side, i);
    assert(book.side(side)[i].handle.bumped().generation != 0);
    assert forall|s: Side, j: int| 0 <= j < after.side(s).len() implies (#[trigger] after.side(
        s,
    )[j]).handle.generation != 0 by {
        let j0 = if s == side && j >= i { j + 1 } else { j };
        assert(after.side(s)[j] == book.side(s)[j0]);
    }
    assert forall|k: int| 0 <= k < after.spare.len() implies (#[trigger] after.spare[k]).generation
        != 0 by {
        if k < book.spare.len() {
            assert(after.spare[k] == book.spare[k]);
        }
    }
}

/// Inserting an order with a fresh intent hash keeps the book well-formed, and
/// the order is then found by its hash.
#[verifier::spinoff_prover]
#[verifier::rlimit(60)]
pub proof fn law_insert_keeps_book(book: BookModel, order: Order)
    requires
        book.wf(),
        book.spare.len() > 0,
        !book.has_intent(order.intent_hash),
    ensures
        book.joined(order).wf(),
        book.joined(order).has_intent(order.intent_hash),
{
    let side = order.side;
    let line = book.side(side);
    let after = book.joined(order);
    law_newcomer_keeps_priority(side, line, order.price);
    let n = model::rank(side, line, order.price) as int;
    let line2 = after.side(side);
    assert(line2[n].order == order);
    assert forall|i: int| 0 <= i < line2.len() implies (#[trigger] line2[i]).order.side == side by {
        if i != n {
            assert(line2[i] == line[if i < n { i } else { i - 1 }]);
        }
    }
    assert forall|i: int, j: int| 0 <= i < j < line2.len() implies !model::better(
        side,
        (#[trigger] line2[j]).order.price,
        (#[trigger] line2[i]).order.price,
    ) by {
        let i0 = if i < n { i } else { i - 1 };
        let j0 = if j < n { j } else { j - 1 };
        if i != n && j != n {
            assert(line2[i] == line[i0] && line2[j] == line[j0]);
        } else if i == n {
            assert(line2[j] == line[j0]);
        } else {
            assert(line2[i] == line[i0]);
        }
    }
    assert(model::line_wf(side, line2));
    let idx = book.spare.last();
    assert forall|s: Side, i: int| 0 <= i < after.side(s).len() && (s, i) != (side, n) implies {
        let k = if s == side && i > n { i - 1 } else { i };
        0 <= k < book.side(s).len() && #[trigger] after.side(s)[i] == book.side(s)[k]
    } by {}
    assert forall|s: Side, i: int, t: Side, j: int|
        #![trigger after.side(s)[i], after.side(t)[j]]
        0 <= i < after.side(s).len() && 0 <= j < after.side(t).len() && (s, i) != (
            t,
            j,
        ) implies {
        &&& after.side(s)[i].order.intent_hash != after.side(t)[j].order.intent_hash
        &&& after.side(s)[i].handle.slot != after.side(t)[j].handle.slot
    } by {
        let i0 = if s == side && i > n { i - 1 } else { i };
        let j0 = if t == side && j > n { j - 1 } else { j };
        if (s, i) == (side, n) {
            assert(after.side(t)[j] == book.side(t)[j0]);
            assert(book.spare[book.spare.len() - 1] == idx);
        } else if (t, j) == (side, n) {
            assert(after.side(s)[i] == book.side(s)[i0]);
            assert(book.spare[book.spare.len() - 1] == idx);
        } else {
            assert(after.side(s)[i] == book.side(s)[i0]);
            assert(after.side(t)[j] == book.side(t)[j0]);
            assert((s, i0) != (t, j0));
        }
    }
    assert forall|s: Side, i: int, k: int|
        #![trigger after.side(s)[i], after.spare[k]]
        0 <= i < after.side(s).len() && 0 <= k < after.spare.len() implies after.side(
        s,
    )[i].handle.slot != after.spare[k].slot by {
        assert(after.spare[k] == book.spare[k]);
        if (s, i) == (side, n) {
            assert(book.spare[book.spare.len() - 1] == idx);
        } else {
            let i0 = if s == side && i > n { i - 1 } else { i };
            assert(after.side(s)[i] == book.side(s)[i0]);
        }
    }
    assert(after.side(side)[n].order.intent_hash == order.intent_hash);
    lemma_insert_keeps_handles(book, order);
}

/// Taking an order off keeps the book well-formed and the other orders in their
/// order, and its intent hash is free again.
#[verifier::spinoff_prover]
#[verifier::rlimit(60)]
pub proof fn law_removal_keeps_book(book: BookModel, side: Side, i: int)
    requires
        book.wf(),
        0 <= i < book.side(side).len(),
    ensures
        book.without(side, i).wf(),
        !book.without(side, i).has_intent(book.side(side)[i].order.intent_hash),
        forall|j: int|
            0 <= j < book.side(side).len() - 1 ==> #[trigger] book.without(side, i).side(side)[j]
                == book.side(side)[if j < i {
                j
            } else {
                j + 1
            }],
{
    let line = book.side(side);
    let after = book.without(side, i);
    let line2 = after.side(side);
    assert forall|j: int| 0 <= j < line2.len() implies #[trigger] line2[j] == line[if j < i {
        j
    } else {
        j + 1
    }] by {}
    assert forall|a: int, b: int| 0 <= a < b < line2.len() implies !model::better(
        side,
        (#[trigger] line2[b]).order.price,
        (#[trigger] line2[a]).order.price,
    ) by {
        let a0 = if a < i { a } else { a + 1 };
        let b0 = if b < i { b } else { b + 1 };
        assert(line2[a] == line[a0] && line2[b] == line[b0]);
    }
    assert forall|s: Side, j: int| 0 <= j < after.side(s).len() implies (#[trigger] after.side(
        s,
    )[j]).order.intent_hash != line[i].order.intent_hash by {
        let j0 = if s == side && j >= i { j + 1 } else { j };
        assert(after.side(s)[j] == book.side(s)[j0]);
        assert(book.side(side)[i] == line[i]);
    }
    assert(model::line_wf(side, line2));
    assert forall|s: Side, a: int, t: Side, b: int|
        #![trigger after.side(s)[a], after.side(t)[b]]
        0 <= a < after.side(s).len() && 0 <= b < after.side(t).len() && (s, a) != (
            t,
            b,
        ) implies {
        &&& after.side(s)[a].order.intent_hash != after.side(t)[b].order.intent_hash
        &&& after.side(s)[a].handle.slot != after.side(t)[b].handle.slot
    } by {
        let a0 = if s == side && a >= i { a + 1 } else { a };
        let b0 = if t == side && b >= i { b + 1 } else { b };
        assert(after.side(s)[a] == book.side(s)[a0]);
        assert(after.side(t)[b] == book.side(t)[b0]);
        assert((s, a0) != (t, b0));
    }
    assert forall|s: Side, a: int, k: int|
        #![trigger after.side(s)[a], after.spare[k]]
        0 <= a < after.side(s).len() && 0 <= k < after.spare.len() implies after.side(
        s,
    )[a].handle.slot != after.spare[k].slot by {
        let a0 = if s == side && a >= i { a + 1 } else { a };
        assert(after.side(s)[a] == book.side(s)[a0]);
        assert((s, a0) != (side, i));
        assert(book.side(side)[i] == line[i]);
        if k < book.spare.len() {
            assert(after.spare[k] == book.spare[k]);
        }
    }
    assert forall|a: int, b: int| 0 <= a < b < after.spare.len() implies (
    #[trigger] after.spare[a]).slot != (#[trigger] after.spare[b]).slot by {
        assert(book.side(side)[i] == line[i]);
        assert(after.spare[a] == book.spare[a]);
        if b < book.spare.len() {
            assert(after.spare[b] == book.spare[b]);
        }
    }
    lemma_removal_keeps_handles(book, side, i);
}

/// Cancelling what was just inserted gives back both lines as they were; only
/// the generation of the slot has moved on.
pub proof fn law_insert_then_cancel(book: BookModel, order: Order)
    requires
        book.wf(),
        book.spare.len() > 0,
    ensures
        ({
            let n = model::rank(order.side, book.side(order.side), order.price) as int;
            let back = book.joined(order).without(order.side, n);
            &&& book.joined(order).side(order.side)[n].order == order
            &&& back.bids == book.bids
            &&& back.asks == book.asks
            &&& back.spare == book.spare.drop_last().push(book.spare.last().bumped())
        }),
{
    law_newcomer_keeps_priority(order.side, book.side(order.side), order.price);
    let n = model::rank(order.side, book.side(order.side), order.price) as int;
    let back = book.joined(order).without(order.side, n);
    assert(back.bids =~= book.bids);
    assert(back.asks =~= book.asks);
}

/// Shrinking the first order moves nothing: handles, intents and prices stay in
/// place, and the line's total falls by exactly the amount taken off.
pub proof fn law_reduce_keeps_places(book: BookModel, side: Side, qty: u64)
    requires
        book.wf(),
        book.side(side).len() > 0,
        qty < book.side(side)[0].order.quantity,
    ensures
        book.reduced(side, qty).wf(),
        model::handles(book.reduced(side, qty).side(side)) == model::handles(book.side(side)),
        model::total(book.reduced(side, qty).side(side)) == model::total(book.side(side)) - qty,
{
    let line = book.side(side);
    let after = book.reduced(side, qty);
    model::lemma_total_shrunk(line, qty);
    assert(model::handles(after.side(side)) =~= model::handles(line));
    assert forall|s: Side, i: int| 0 <= i < after.side(s).len() implies {
        let e = #[trigger] after.side(s)[i];
        &&& e.handle == book.side(s)[i].handle
        &&& e.order.side == book.side(s)[i].order.side
        &&& e.order.price == book.side(s)[i].order.price
        &&& e.order.intent_hash == book.side(s)[i].order.intent_hash
    } by {}
    assert(model::line_wf(Side::Bid, after.side(Side::Bid))) by {
        assert(forall|i: int| 0 <= i < book.bids.len() ==> #[trigger] book.side(Side::Bid)[i] == book.bids[i]);
    }
    assert(model::line_wf(Side::Ask, after.side(Side::Ask))) by {
        assert(forall|i: int| 0 <= i < book.asks.len() ==> #[trigger] book.side(Side::Ask)[i] == book.asks[i]);
    }
    assert(after.distinct());
    assert(after.handles_valid());
}

/// Every level that holds orders shows them: it counts them all, adds up their
/// quantities, is not empty, and its head is a valid handle, that of the oldest.
pub proof fn law_level_shows_its_orders(
    book: BookModel,
    side: Side,
    price: u64,
    level: PriceLevel,
)
    requires
        book.wf(),
        level.summarises(model::level_of(book.side(side), price)),
        model::level_of(book.side(side), price).len() > 0,
    ensures
        ({
            let row = model::level_of(book.side(side), price);
            &&& level.len == row.len() && level.len > 0
            &&& level.total_qty == model::total(row)
            &&& level.head == row[0].handle
            &&& level.head != ArenaIdx::sentinel()
        }),
{
    let line = book.side(side);
    let at_price = |e: Entry| e.order.price == price;
    let row = model::level_of(line, price);
    assert(row.contains(row[0]));
    line.lemma_filter_contains_rev(at_price, row[0]);
    let i = choose|i: int| 0 <= i < line.len() && line[i] == row[0];
    assert(book.side(side)[i].handle.generation != 0);
}

/// An insert adds exactly the order's quantity to its side's total.
pub proof fn law_insert_adds_quantity(book: BookModel, order: Order)
    requires
        book.wf(),
        book.spare.len() > 0,
    ensures
        model::total(book.joined(order).side(order.side)) == model::total(book.side(order.side))
            + order.quantity,
{
    let line = book.side(order.side);
    law_newcomer_keeps_priority(order.side, line, order.price);
    let n = model::rank(order.side, line, order.price) as int;
    let line2 = book.joined(order).side(order.side);
    model::lemma_total_remove(line2, n);
    assert(line2.remove(n) =~= line);
}

/// The orders of one side of a book.
pub open spec fn orders_on(book: BookModel, side: Side) -> Seq<Entry> {
    if side == Side::Bid {
        book.bids
    } else {
        book.asks
    }
}

/// An order that joins the book takes the next spare handle and stands behind every
/// order of its side at a price as good, and ahead of every worse one. Every other
/// order stays as it is.
pub proof fn law_order_joins_at_its_price_and_time(book: BookModel, order: Order)
    requires
        book.wf(),
        book.spare.len() > 0,
    ensures
        ({
            let after = book.joined(order);
            let line = orders_on(book, order.side);
            let joined = orders_on(after, order.side);
            &&& joined.len() == line.len() + 1
            &&& exists|p: int|
                0 <= p <= line.len() && (#[trigger] joined[p]).order == order && joined[p].handle
                    == book.spare[book.spare.len() - 1] && joined.remove(p) == line && forall|i: int|
                    0 <= i < line.len() ==> if order.side == Side::Bid {
                        (#[trigger] line[i]).order.price >= order.price <==> i < p
                    } else {
                        line[i].order.price <= order.price <==> i < p
                    }
            &&& order.side == Side::Bid ==> after.asks == book.asks
            &&& order.side == Side::Ask ==> after.bids == book.bids
            &&& after.spare.len() == book.spare.len() - 1
            &&& forall|k: int|
                0 <= k < after.spare.len() ==> #[trigger] after.spare[k] == book.spare[k]
        }),
{
    let line = book.side(order.side);
    let after = book.joined(order);
    let joined = orders_on(after, order.side);
    assert(joined == after.side(order.side) && line == orders_on(book, order.side));
    law_newcomer_keeps_priority(order.side, line, order.price);
    let p = model::rank(order.side, line, order.price) as int;
    assert(joined[p].order == order);
    assert(joined.remove(p) =~= line);
    assert forall|i: int| 0 <= i < line.len() implies if order.side == Side::Bid {
        (#[trigger] line[i]).order.price >= order.price <==> i < p
    } else {
        line[i].order.price <= order.price <==> i < p
    } by {
        assert(i < p ==> !model::better(order.side, order.price, line[i].order.price));
        assert(i >= p ==> model::better(order.side, order.price, line[i].order.price));
    }
}

/// Taking an order off leaves every other order as it is and where it is, and frees
/// its slot one generation on.
pub proof fn law_removal_takes_one_order(book: BookModel, side: Side, i: int)
    requires
        0 <= i < orders_on(book, side).len(),
    ensures
        ({
            let after = book.without(side, i);
            let gone = orders_on(book, side)[i].handle;
            &&& side == Side::Bid ==> after.bids == book.bids.remove(i) && after.asks == book.asks
            &&& side == Side::Ask ==> after.asks == book.asks.remove(i) && after.bids == book.bids
            &&& after.spare.len() == book.spare.len() + 1
            &&& forall|k: int|
                0 <= k < book.spare.len() ==> #[trigger] after.spare[k] == book.spare[k]
            &&& after.spare[book.spare.len() as int].slot == gone.slot
            &&& after.spare[book.spare.len() as int].generation == if gone.generation == u32::MAX {
                1
            } else {
                gone.generation + 1
            }
        }),
{
}

/// Shrinking the first order of a side changes its quantity, by the amount taken
/// off, and nothing else.
pub proof fn law_reduce_changes_one_quantity(book: BookModel, side: Side, qty: u64)
    requires
        orders_on(book, side).len() > 0,
        qty <= orders_on(book, side)[0].order.quantity,
    ensures
        ({
            let after = book.reduced(side, qty);
            let line = orders_on(book, side);
            let left = orders_on(after, side);
            &&& left.len() == line.len()
            &&& left[0].order.quantity == line[0].order.quantity - qty
            &&& left[0].order == (Order { quantity: left[0].order.quantity, ..line[0].order })
            &&& left[0].handle == line[0].handle
            &&& forall|i: int| 0 < i < line.len() ==> #[trigger] left[i] == line[i]
            &&& side == Side::Bid ==> after.asks == book.asks
            &&& side == Side::Ask ==> after.bids == book.bids
            &&& after.spare == book.spare
        }),
{
}

/// A book is crossed just if some bid reaches some ask.
pub proof fn law_crossed_means_a_bid_reaches_an_ask(book: BookModel)
    requires
        book.wf(),
    ensures
        book.crossed() <==> exists|i: int, j: int|
            0 <= i < book.bids.len() && 0 <= j < book.asks.len() && (
            #[trigger] book.bids[i]).order.price >= (#[trigger] book.asks[j]).order.price,
{
    if book.crossed() {
        assert(book.bids[0].order.price >= book.asks[0].order.price);
    }
    if exists|i: int, j: int|
        0 <= i < book.bids.len() && 0 <= j < book.asks.len() && (
        #[trigger] book.bids[i]).order.price >= (#[trigger] book.asks[j]).order.price {
        let (i, j) = choose|i: int, j: int|
            0 <= i < book.bids.len() && 0 <= j < book.asks.len() && (
            #[trigger] book.bids[i]).order.price >= (#[trigger] book.asks[j]).order.price;
        if i > 0 {
            assert(!model::better(Side::Bid, book.bids[i].order.price, book.bids[0].order.price));
        }
        if j > 0 {
            assert(!model::better(Side::Ask, book.asks[j].order.price, book.asks[0].order.price));
        }
    }
}

/// The quantity that the first `k` orders of a line have at `price`.
pub open spec fn resting_at(line: Seq<Entry>, k: int, price: u64) -> int
    decreases k,
{
    if k <= 0 {
        0
    } else {
        resting_at(line, k - 1, price) + if line[k - 1].order.price == price {
            line[k - 1].order.quantity as int
        } else {
            0
        }
    }
}

proof fn lemma_resting_front(a: Seq<Entry>, b: Seq<Entry>, k: int, price: u64)
    requires
        0 <= k <= a.len(),
        k <= b.len(),
        forall|i: int| 0 <= i < k ==> a[i] == b[i],
    ensures
        resting_at(a, k, price) == resting_at(b, k, price),
    decreases k,
{
    if k > 0 {
        lemma_resting_front(a, b, k - 1, price);
    }
}

proof fn lemma_nothing_rests(line: Seq<Entry>, k: int, price: u64)
    requires
        0 <= k <= line.len(),
        forall|i: int| 0 <= i < k ==> (#[trigger] line[i]).order.price != price,
    ensures
        resting_at(line, k, price) == 0,
    decreases k,
{
    if k > 0 {
        lemma_nothing_rests(line, k - 1, price);
    }
}

/// The total of a level is the sum of the quantities of the orders at its price.
pub proof fn law_level_total_is_what_rests_there(line: Seq<Entry>, price: u64)
    ensures
        model::total(model::level_of(line, price)) == resting_at(line, line.len() as int, price),
    decreases line.len(),
{
    reveal(Seq::filter);
    if line.len() > 0 {
        let front = line.drop_last();
        law_level_total_is_what_rests_there(front, price);
        lemma_resting_front(line, front, front.len() as int, price);
        let at_price = |e: Entry| e.order.price == price;
        let row = front.filter(at_price);
        if at_price(line.last()) {
            assert(line.filter(at_price) == row.push(line.last()));
            assert(row.push(line.last()).drop_last() =~= row);
        } else {
            assert(line.filter(at_price) == row);
        }
    }
}

/// One price trades strictly before another: the higher bid, the lower ask.
spec fn ahead_of(side: Side, a: u64, b: u64) -> bool {
    (side == Side::Bid && a > b) || (side == Side::Ask && a < b)
}

/// The levels of a line are strictly ordered, and the last one is that of its last
/// order.
proof fn lemma_depth_is_ordered(side: Side, line: Seq<Entry>)
    requires
        model::line_wf(side, line),
    ensures
        line.len() > 0 <==> model::depth(line).len() > 0,
        line.len() > 0 ==> model::depth(line).last().0 == line.last().order.price,
        forall|i: int, j: int|
            0 <= i < j < model::depth(line).len() ==> ahead_of(
                side,
                (#[trigger] model::depth(line)[i]).0,
                (#[trigger] model::depth(line)[j]).0,
            ),
    decreases line.len(),
{
    if line.len() > 0 {
        let front = line.drop_last();
        let n = line.len() - 1;
        assert(model::line_wf(side, front));
        lemma_depth_is_ordered(side, front);
        let levels = model::depth(front);
        let d = model::depth(line);
        let m = d.len() - 1;
        if front.len() > 0 {
            assert(!model::better(side, line[n].order.price, line[n - 1].order.price));
            assert(front.last() == line[n - 1]);
        }
        assert forall|i: int, j: int| 0 <= i < j < d.len() implies ahead_of(
            side,
            (#[trigger] d[i]).0,
            (#[trigger] d[j]).0,
        ) by {
            assert(d[i] == levels[i]);
            let top = levels.len() - 1;
            if j < m {
                assert(d[j] == levels[j]);
            } else if i < top {
                assert(ahead_of(side, levels[i].0, levels[top].0));
            }
        }
    }
}

/// Every level of a line has all that rests at its price.
proof fn lemma_depth_totals(side: Side, line: Seq<Entry>, i: int)
    requires
        model::line_wf(side, line),
        0 <= i < model::depth(line).len(),
    ensures
        model::depth(line)[i].1 == resting_at(line, line.len() as int, model::depth(line)[i].0),
    decreases line.len(),
{
    let front = line.drop_last();
    let n = line.len() - 1;
    assert(model::line_wf(side, front));
    lemma_depth_is_ordered(side, line);
    lemma_depth_is_ordered(side, front);
    let levels = model::depth(front);
    let d = model::depth(line);
    let last = line.last().order;
    let m = d.len() - 1;
    let price = d[i].0;
    lemma_resting_front(line, front, n, price);
    assert(resting_at(line, n + 1, price) == resting_at(line, n, price) + if last.price == price {
        last.quantity as int
    } else {
        0
    });
    if i < m {
        assert(d[i] == levels[i]);
        lemma_depth_totals(side, front, i);
        assert(ahead_of(side, d[i].0, d[m].0));
    } else if levels.len() > 0 && levels.last().0 == last.price {
        lemma_depth_totals(side, front, levels.len() - 1);
    } else {
        assert forall|k: int| 0 <= k < n implies (#[trigger] line[k]).order.price != price by {
            assert(front.last() == line[n - 1]);
            assert(!model::better(side, line[n].order.price, line[n - 1].order.price));
            if k < n - 1 {
                assert(!model::better(side, line[n - 1].order.price, line[k].order.price));
            }
        }
        lemma_nothing_rests(line, n, price);
    }
}

/// The price of every order has a level.
proof fn lemma_depth_covers(side: Side, line: Seq<Entry>, k: int) -> (i: int)
    requires
        model::line_wf(side, line),
        0 <= k < line.len(),
    ensures
        0 <= i < model::depth(line).len(),
        model::depth(line)[i].0 == line[k].order.price,
    decreases line.len(),
{
    lemma_depth_is_ordered(side, line);
    let d = model::depth(line);
    if k == line.len() - 1 {
        d.len() - 1
    } else {
        let front = line.drop_last();
        assert(model::line_wf(side, front));
        let i = lemma_depth_covers(side, front, k);
        assert(d[i].0 == model::depth(front)[i].0);
        i
    }
}

/// Every level is that of some order.
proof fn lemma_depth_origin(line: Seq<Entry>, i: int) -> (k: int)
    requires
        0 <= i < model::depth(line).len(),
    ensures
        0 <= k < line.len(),
        line[k].order.price == model::depth(line)[i].0,
    decreases line.len(),
{
    let d = model::depth(line);
    if i == d.len() - 1 {
        line.len() - 1
    } else {
        let front = line.drop_last();
        assert(d[i] == model::depth(front)[i]);
        let k = lemma_depth_origin(front, i);
        assert(front[k] == line[k]);
        k
    }
}

/// The depth of a side lists every price with orders once, bids from the highest
/// and asks from the lowest on, each with the whole quantity that rests there.
pub proof fn law_depth_lists_what_rests(side: Side, line: Seq<Entry>)
    requires
        model::line_wf(side, line),
    ensures
        forall|i: int, j: int|
            0 <= i < j < model::depth(line).len() ==> if side == Side::Bid {
                (#[trigger] model::depth(line)[i]).0 > (#[trigger] model::depth(line)[j]).0
            } else {
                model::depth(line)[i].0 < model::depth(line)[j].0
            },
        forall|i: int|
            0 <= i < model::depth(line).len() ==> (#[trigger] model::depth(line)[i]).1
                == resting_at(line, line.len() as int, model::depth(line)[i].0),
        forall|k: int|
            0 <= k < line.len() ==> exists|i: int|
                0 <= i < model::depth(line).len() && (#[trigger] model::depth(line)[i]).0 == (
                #[trigger] line[k]).order.price,
        forall|i: int|
            0 <= i < model::depth(line).len() ==> exists|k: int|
                0 <= k < line.len() && (#[trigger] line[k]).order.price == (
                #[trigger] model::depth(line)[i]).0,
{
    lemma_depth_is_ordered(side, line);
    let d = model::depth(line);
    assert forall|i: int, j: int| 0 <= i < j < d.len() implies if side == Side::Bid {
        (#[trigger] d[i]).0 > (#[trigger] d[j]).0
    } else {
        d[i].0 < d[j].0
    } by {
        assert(ahead_of(side, d[i].0, d[j].0));
    }
    assert forall|i: int| 0 <= i < d.len() implies (#[trigger] d[i]).1 == resting_at(
        line,
        line.len() as int,
        d[i].0,
    ) by {
        lemma_depth_totals(side, line, i);
    }
    assert forall|k: int| 0 <= k < line.len() implies exists|i: int|
        0 <= i < d.len() && (#[trigger] d[i]).0 == (#[trigger] line[k]).order.price by {
        let i = lemma_depth_covers(side, line, k);
        assert(d[i].0 == line[k].order.price);
    }
    assert forall|i: int| 0 <= i < d.len() implies exists|k: int|
        0 <= k < line.len() && (#[trigger] line[k]).order.price == (#[trigger] d[i]).0 by {
        let k = lemma_depth_origin(line, i);
        assert(line[k].order.price == d[i].0);
    }
}

/// A limited depth is as long as it may be and shows the best levels.
pub proof fn law_limited_depth_is_the_best_part(line: Seq<Entry>, max: nat)
    ensures
        ({
            let d = model::depth(line);
            let top = model::top_depth(line, max);
            &&& top.len() == if d.len() <= max {
                d.len()
            } else {
                max
            }
            &&& forall|i: int| 0 <= i < top.len() ==> #[trigger] top[i] == d[i]
        }),
{
}

/// How many of the first `k` orders of a line are at `price`.
pub open spec fn count_at(line: Seq<Entry>, k: int, price: u64) -> int
    decreases k,
{
    if k <= 0 {
        0
    } else {
        count_at(line, k - 1, price) + if line[k - 1].order.price == price {
            1int
        } else {
            0
        }
    }
}

proof fn lemma_count_front(a: Seq<Entry>, b: Seq<Entry>, k: int, price: u64)
    requires
        0 <= k <= a.len(),
        k <= b.len(),
        forall|i: int| 0 <= i < k ==> a[i] == b[i],
    ensures
        count_at(a, k, price) == count_at(b, k, price),
    decreases k,
{
    if k > 0 {
        lemma_count_front(a, b, k - 1, price);
    }
}

/// A level holds exactly the orders of the line at its price, in their order: the
/// `k`-th order of the line, if it is at that price, stands behind as many orders of
/// the level as there are before it in the line.
pub proof fn law_level_holds_the_orders_at_its_price(line: Seq<Entry>, price: u64)
    ensures
        model::level_of(line, price).len() == count_at(line, line.len() as int, price),
        forall|k: int|
            0 <= k < line.len() && (#[trigger] line[k]).order.price == price ==> 0 <= count_at(
                line,
                k,
                price,
            ) < model::level_of(line, price).len() && model::level_of(line, price)[count_at(
                line,
                k,
                price,
            )] == line[k],
    decreases line.len(),
{
    reveal(Seq::filter);
    if line.len() > 0 {
        let front = line.drop_last();
        let n = line.len() - 1;
        law_level_holds_the_orders_at_its_price(front, price);
        lemma_count_front(line, front, n, price);
        let at_price = |e: Entry| e.order.price == price;
        let row = front.filter(at_price);
        let whole = line.filter(at_price);
        if at_price(line.last()) {
            assert(whole == row.push(line.last()));
        } else {
            assert(whole == row);
        }
        assert forall|k: int|
            0 <= k < line.len() && (#[trigger] line[k]).order.price == price implies 0 <= count_at(
            line,
            k,
            price,
        ) < whole.len() && whole[count_at(line, k, price)] == line[k] by {
            if k < n {
                assert(front[k] == line[k]);
                lemma_count_front(line, front, k, price);
            }
        }
    }
}

/// Bids come highest price first and asks lowest price first, so the first order of a
/// side has its best price, and every order is on its own side.
pub proof fn law_best_price_comes_first(book: BookModel)
    requires
        book.wf(),
    ensures
        forall|i: int, j: int|
            0 <= i < j < book.bids.len() ==> (#[trigger] book.bids[i]).order.price >= (
            #[trigger] book.bids[j]).order.price,
        forall|i: int, j: int|
            0 <= i < j < book.asks.len() ==> (#[trigger] book.asks[i]).order.price <= (
            #[trigger] book.asks[j]).order.price,
        forall|i: int|
            0 <= i < book.bids.len() ==> (#[trigger] book.bids[i]).order.side == Side::Bid,
        forall|i: int|
            0 <= i < book.asks.len() ==> (#[trigger] book.asks[i]).order.side == Side::Ask,
{
    assert forall|i: int, j: int| 0 <= i < j < book.bids.len() implies (
    #[trigger] book.bids[i]).order.price >= (#[trigger] book.bids[j]).order.price by {
        assert(!model::better(Side::Bid, book.bids[j].order.price, book.bids[i].order.price));
    }
    assert forall|i: int, j: int| 0 <= i < j < book.asks.len() implies (
    #[trigger] book.asks[i]).order.price <= (#[trigger] book.asks[j]).order.price by {
        assert(!model::better(Side::Ask, book.asks[j].order.price, book.asks[i].order.price));
    }
}

/// An intent rests on a book just if an order on either side carries its hash.
pub proof fn law_intent_rests_with_its_order(book: BookModel, hash: IntentHash)
    ensures
        book.has_intent(hash) <==> (exists|i: int|
            0 <= i < book.bids.len() && (#[trigger] book.bids[i]).order.intent_hash == hash) || (
        exists|i: int|
            0 <= i < book.asks.len() && (#[trigger] book.asks[i]).order.intent_hash == hash),
{
    if book.has_intent(hash) {
        let (s, i) = choose|s: Side, i: int|
            0 <= i < book.side(s).len() && (#[trigger] book.side(s)[i]).order.intent_hash == hash;
        if s == Side::Bid {
            assert(book.bids[i].order.intent_hash == hash);
        } else {
            assert(book.asks[i].order.intent_hash == hash);
        }
    }
    if exists|i: int|
        0 <= i < book.bids.len() && (#[trigger] book.bids[i]).order.intent_hash == hash {
        let i = choose|i: int|
            0 <= i < book.bids.len() && (#[trigger] book.bids[i]).order.intent_hash == hash;
        assert(book.side(Side::Bid)[i].order.intent_hash == hash);
    }
    if exists|i: int|
        0 <= i < book.asks.len() && (#[trigger] book.asks[i]).order.intent_hash == hash {
        let i = choose|i: int|
            0 <= i < book.asks.len() && (#[trigger] book.asks[i]).order.intent_hash == hash;
        assert(book.side(Side::Ask)[i].order.intent_hash == hash);
    }
}

} // verus!
