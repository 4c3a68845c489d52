//! A cursor over the orders of the best price level of one side.
use super::book::OrderBook;
use super::model;
use super::model::Entry;
use crate::types::{Order, Side};
use vstd::prelude::*;

verus! {

/// Consumes the best level of one side from its oldest order on. The cursor
/// stays at the level's price, also once the last order there is gone.
pub struct LevelCursor<'a> {
    pub book: &'a mut OrderBook,
    pub side: Side,
    pub price: u64,
}

impl<'a> LevelCursor<'a> {
    /// The orders of the cursor's side.
    pub open spec fn line(self) -> Seq<Entry> {
        self.book@.side(self.side)
    }

    /// The orders that the cursor has left, oldest first.
    pub open spec fn rest(self) -> Seq<Entry> {
        model::level_of(self.line(), self.price)
    }

    /// The book is well-formed and nothing on the cursor's side trades before
    /// the orders that it has left.
    pub open spec fn wf(self) -> bool {
        &&& self.book.wf()
        &&& self.line().len() > 0 ==> !model::better(
            self.side,
            self.line()[0].order.price,
            self.price,
        )
    }

    /// A cursor on the best level of `side`.
    pub fn new(book: &'a mut OrderBook, side: Side) -> (r: Option<LevelCursor<'a>>)
        requires
            old(book).wf(),
        ensures
            match r {
                Some(c) => {
                    &&& c.wf()
                    &&& old(book)@.side(side).len() > 0
                    &&& c.side == side
                    &&& c.price == old(book)@.side(side)[0].order.price
                    &&& *c.book == *old(book)
                    &&& *final(c.book) == *final(book)
                },
                None => old(book)@.side(side).len() == 0 && *final(book) == *old(book),
            },
    {
        let price: u64 = match book.peek_top(side) {
            Some(top) => top.price,
            None => {
                return None;
            },
        };
        Some(LevelCursor { book, side, price })
    }

    /// The price of the level.
    pub fn price(&self) -> (price: u64)
        ensures
            price == self.price,
    {
        self.price
    }

    /// The oldest order left at the level.
    pub fn head(&self) -> (r: Option<&Order>)
        requires
            self.wf(),
        ensures
            match r {
                Some(order) => self.rest().len() > 0 && *order == self.rest()[0].order,
                None => self.rest().len() == 0,
            },
    {
        proof {
            self.lemma_rest();
        }
        match self.book.peek_top(self.side) {
            Some(top) => if top.price == self.price {
                Some(top.order)
            } else {
                None
            },
            None => None,
        }
    }

    /// The level has orders left just if the first order of the side is at its
    /// price; that order is then the oldest one left.
    proof fn lemma_rest(self)
        requires
            self.wf(),
        ensures
            if self.line().len() > 0 && self.line()[0].order.price == self.price {
                &&& self.rest().len() > 0
                &&& self.rest()[0] == self.line()[0]
            } else {
                self.rest().len() == 0
            },
    {
        self.book.lemma_model();
        model::lemma_front_level(self.side, self.line(), self.price);
    }

    /// Take the oldest order of the level off the book; tells whether the level
    /// has another one.
    pub fn pop_head(&mut self) -> (more: bool)
        requires
            old(self).wf(),
            old(self).rest().len() > 0,
        ensures
            final(self).wf(),
            final(self).side == old(self).side,
            final(self).price == old(self).price,
            final(self).book@ == old(self).book@.without(old(self).side, 0),
            *final(final(self).book) == *final(old(self).book),
            more == (final(self).rest().len() > 0),
    {
        proof {
            self.lemma_rest();
            self.book.lemma_model();
        }
        self.book.pop_top(self.side);
        self.head().is_some()
    }

    /// Take `qty` off the oldest order of the level, which keeps a positive
    /// quantity and its place.
    pub fn reduce_head(&mut self, qty: u64)
        requires
            old(self).wf(),
            old(self).rest().len() > 0,
            qty < old(self).rest()[0].order.quantity,
        ensures
            final(self).wf(),
            final(self).side == old(self).side,
            final(self).price == old(self).price,
            final(self).book@ == old(self).book@.reduced(old(self).side, qty),
            *final(final(self).book) == *final(old(self).book),
    {
        proof {
            self.lemma_rest();
        }
        self.book.reduce_top(self.side, qty);
    }

    /// Let go of the book as the cursor has left it.
    pub fn finish(self)
        ensures
            *final(self.book) == *old(self.book),
    {
    }
}

} // verus!
