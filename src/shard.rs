//! A shard: one symbol's book, fed one ingress event at a time.
use vstd::prelude::*;

use crate::errors::AlgorithmError;
use crate::matching_book::MatchingBook;
use crate::order::{Order, Side as BookSide};
use crate::trade::{Trade, TradeRanks};
use crate::types::{Event, Side};

verus! {

/// The book side of an ingress side.
pub open spec fn book_side(side: Side) -> BookSide {
    match side {
        Side::BUY => BookSide::Buy,
        Side::SELL => BookSide::Sell,
    }
}

fn book_side_exec(side: Side) -> (r: BookSide)
    ensures
        r == book_side(side),
{
    match side {
        Side::BUY => BookSide::Buy,
        Side::SELL => BookSide::Sell,
    }
}

/// The owner of one symbol's book.  Events become orders with ids assigned
/// in arrival order, starting at 1.
pub struct Shard {
    pub symbol: String,
    pub book: MatchingBook,
    pub next_order_id: u64,
}

impl Shard {
    pub open spec fn wf(&self) -> bool {
        self.book.wf()
    }

    pub fn new(symbol: String, book: MatchingBook) -> (r: Shard)
        requires
            book.wf(),
        ensures
            r.wf(),
            r.symbol == symbol,
            r.book == book,
            r.next_order_id == 1,
    {
        Shard { symbol, book, next_order_id: 1 }
    }

    /// True when the shard can take an event of `qty` units: an order id is
    /// left, and `ranks` can rank one trade per unit.
    pub open spec fn can_take(&self, qty: u64, ranks: TradeRanks) -> bool {
        self.next_order_id < u64::MAX && ranks.has_room(qty as nat)
    }

    /// Turns `event` into the next order and matches it on the book.  When no
    /// order id is left, or `ranks` may run out, the event is refused with
    /// `Internal` and nothing changes.
    pub fn process_event(&mut self, event: Event, ranks: &mut TradeRanks) -> (r: Result<
        Vec<Trade>,
        AlgorithmError,
    >)
        requires
            old(self).wf(),
        ensures
            final(self).wf(),
            final(self).symbol == old(self).symbol,
            !old(self).can_take(event.qty, *old(ranks)) ==> (r matches Err(AlgorithmError::Internal))
                && *final(self) == *old(self) && final(ranks)@ == old(ranks)@,
            old(self).can_take(event.qty, *old(ranks)) ==> final(self).next_order_id
                == old(self).next_order_id + 1 && exists|o: Order|
                #![trigger old(self).book.outcome(&final(self).book, o, r, old(ranks)@, final(ranks)@)]
                o.id == old(self).next_order_id && o.side == book_side(event.side) && o.price
                    == event.price && o.quantity == event.qty && old(self).book.outcome(
                    &final(self).book,
                    o,
                    r,
                    old(ranks)@,
                    final(ranks)@,
                ),
    {
        if self.next_order_id == u64::MAX || ranks.trade_count() > u64::MAX - event.qty {
            return Err(AlgorithmError::Internal);
        }
        let order = Order::new(self.next_order_id, book_side_exec(event.side), event.price, event.qty);
        self.next_order_id = self.next_order_id + 1;
        self.book.match_order(order, ranks)
    }

    /// The numbers of resting bids and asks.
    pub fn get_stats(&self) -> (r: (usize, usize))
        ensures
            r.0 == self.book.bid_count(),
            r.1 == self.book.ask_count(),
    {
        (self.book.bid_depth(), self.book.ask_depth())
    }
}

} // verus!
