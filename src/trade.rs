use vstd::prelude::*;

use crate::order::now_millis;

verus! {

/// The source of trade ranks: a strictly increasing sequence number shared by
/// every book that draws from it.  Its view is the number of ranks issued so
/// far; the next rank is one more than that.
pub struct TradeRanks {
    issued: u64,
}

impl View for TradeRanks {
    type V = nat;

    closed spec fn view(&self) -> nat {
        self.issued as nat
    }
}

impl TradeRanks {
    /// A counter that has issued nothing: the first rank it hands out is 1.
    pub fn new() -> (r: TradeRanks)
        ensures
            r@ == 0,
    {
        TradeRanks { issued: 0 }
    }

    /// True when `n` more ranks can still be issued.
    pub open spec fn has_room(&self, n: nat) -> bool {
        self@ + n <= u64::MAX
    }

    /// Hands out the next rank.
    pub fn issue(&mut self) -> (r: u64)
        requires
            old(self).has_room(1),
        ensures
            r == old(self)@ + 1,
            final(self)@ == old(self)@ + 1,
    {
        self.issued = self.issued + 1;
        self.issued
    }

    /// How many trades have been ranked since creation or the last reset.
    pub fn trade_count(&self) -> (r: u64)
        ensures
            r == self@,
    {
        self.issued
    }

    /// Starts the sequence again at rank 1.  Only safe while no book is matching.
    pub fn reset(&mut self)
        ensures
            final(self)@ == 0,
    {
        self.issued = 0;
    }
}

/// An executed match between a resting order and an aggressor.
#[derive(Debug, Clone, Copy, PartialEq, Eq, Structural)]
pub struct Trade {
    pub buy_id: u64,
    pub sell_id: u64,
    pub price: u64,
    pub quantity: u64,
    pub rank: u64,
    pub timestamp: i64,
}

impl Trade {
    /// Records a trade, drawing its rank from `ranks` and its timestamp from the clock.
    pub fn new(buy_id: u64, sell_id: u64, price: u64, quantity: u64, ranks: &mut TradeRanks) -> (r:
        Trade)
        requires
            old(ranks).has_room(1),
        ensures
            r.buy_id == buy_id,
            r.sell_id == sell_id,
            r.price == price,
            r.quantity == quantity,
            r.rank == old(ranks)@ + 1,
            final(ranks)@ == old(ranks)@ + 1,
    {
        let rank = ranks.issue();
        Trade { buy_id, sell_id, price, quantity, rank, timestamp: now_millis() }
    }
}

} // verus!
