//! The three matching disciplines behind one type.
use vstd::prelude::*;

use crate::errors::AlgorithmError;
use crate::fifo::FifoMatcher;
use crate::hybrid::HybridMatcher;
use crate::order::Order;
use crate::pro_rata::ProRataMatcher;
use crate::trade::{Trade, TradeRanks};

verus! {

/// A per-symbol book under one of the three matching disciplines.
pub enum MatchingBook {
    Fifo(FifoMatcher),
    ProRata(ProRataMatcher),
    Hybrid(HybridMatcher),
}

impl MatchingBook {
    pub open spec fn wf(&self) -> bool {
        match self {
            MatchingBook::Fifo(m) => m.wf(),
            MatchingBook::ProRata(m) => m.wf(),
            MatchingBook::Hybrid(m) => m.wf(),
        }
    }

    /// What a submission of `incoming` does, by the discipline of the book.
    /// The pro-rata and hybrid disciplines never fail: they report an
    /// invalid order as a submission with no trades.
    pub open spec fn outcome(
        &self,
        after: &MatchingBook,
        incoming: Order,
        r: Result<Vec<Trade>, AlgorithmError>,
        ranked: nat,
        ranked_after: nat,
    ) -> bool {
        match (self, after) {
            (MatchingBook::Fifo(m), MatchingBook::Fifo(a)) => m.outcome(
                a,
                incoming,
                r,
                ranked,
                ranked_after,
            ),
            (MatchingBook::ProRata(m), MatchingBook::ProRata(a)) => r is Ok && m.outcome(
                a,
                incoming,
                r->Ok_0@,
                ranked,
                ranked_after,
            ),
            (MatchingBook::Hybrid(m), MatchingBook::Hybrid(a)) => r is Ok && m.outcome(
                a,
                incoming,
                r->Ok_0@,
                ranked,
                ranked_after,
            ),
            _ => false,
        }
    }

    /// Submits `incoming` to the book under its discipline.
    pub fn match_order(&mut self, incoming: Order, ranks: &mut TradeRanks) -> (r: Result<
        Vec<Trade>,
        AlgorithmError,
    >)
        requires
            old(self).wf(),
            old(ranks).has_room(incoming.quantity as nat),
        ensures
            final(self).wf(),
            old(self).outcome(final(self), incoming, r, old(ranks)@, final(ranks)@),
    {
        match self {
            MatchingBook::Fifo(m) => m.match_order(incoming, ranks),
            MatchingBook::ProRata(m) => Ok(m.match_order(incoming, ranks)),
            MatchingBook::Hybrid(m) => Ok(m.match_order(incoming, ranks)),
        }
    }

    /// The number of resting bids.
    pub open spec fn bid_count(&self) -> nat {
        match self {
            MatchingBook::Fifo(m) => m.bids@.len(),
            MatchingBook::ProRata(m) => m.bids@.len(),
            MatchingBook::Hybrid(m) => m.bids@.len(),
        }
    }

    /// The number of resting asks.
    pub open spec fn ask_count(&self) -> nat {
        match self {
            MatchingBook::Fifo(m) => m.asks@.len(),
            MatchingBook::ProRata(m) => m.asks@.len(),
            MatchingBook::Hybrid(m) => m.asks@.len(),
        }
    }

    pub fn bid_depth(&self) -> (r: usize)
        ensures
            r == self.bid_count(),
    {
        match self {
            MatchingBook::Fifo(m) => m.bid_depth(),
            MatchingBook::ProRata(m) => m.bid_depth(),
            MatchingBook::Hybrid(m) => m.bid_depth(),
        }
    }

    pub fn ask_depth(&self) -> (r: usize)
        ensures
            r == self.ask_count(),
    {
        match self {
            MatchingBook::Fifo(m) => m.ask_depth(),
            MatchingBook::ProRata(m) => m.ask_depth(),
            MatchingBook::Hybrid(m) => m.ask_depth(),
        }
    }
}

} // verus!
