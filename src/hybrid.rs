//! Hybrid matching: a FIFO phase then a pro-rata phase on one price level.
use vstd::prelude::*;

use std::collections::VecDeque;

use crate::book::{
    at_least_as_good, crosses_exec, fills_total, lemma_fills_total_append,
    lemma_rest_keeps_uncrossed, opposite, records, rest, rest_order, side_wf, snapshot,
    total_quantity, uncrossed,
};
use crate::fifo::{
    fifo_book, fifo_fills, fifo_left, lemma_fifo_book_shape, lemma_fifo_conservation, sweep_fifo,
};
use crate::order::{Order, Side};
use crate::pro_rata::{
    lemma_level_rest_head, lemma_pro_rata_conservation, level_of, match_level, match_quantity, pro_rata_fills,
    pro_rata_rest, reaches_best,
};
use crate::trade::{Trade, TradeRanks};

verus! {

/// Basis points in the whole: a FIFO fraction of 1 is this many.
pub const WHOLE_BASIS_POINTS: u64 = 10000;

/// How a hybrid book splits each aggressor: the FIFO phase takes
/// `fifo_basis_points` / 10000 of the quantity, rounded down.
#[derive(Debug, Clone, Copy, PartialEq, Eq, Structural)]
pub struct HybridConfig {
    pub fifo_basis_points: u64,
}

impl Default for HybridConfig {
    /// An even split between the two phases.
    fn default() -> (r: HybridConfig)
        ensures
            r.fifo_basis_points == WHOLE_BASIS_POINTS / 2,
    {
        HybridConfig { fifo_basis_points: WHOLE_BASIS_POINTS / 2 }
    }
}

/// The units of `qty` that the FIFO phase may take: `floor(qty * bps / 10000)`.
pub open spec fn fifo_part(qty: nat, bps: nat) -> nat {
    (qty * bps) / (WHOLE_BASIS_POINTS as nat)
}

fn fifo_part_exec(qty: u64, bps: u64) -> (r: u64)
    requires
        bps <= WHOLE_BASIS_POINTS,
    ensures
        r == fifo_part(qty as nat, bps as nat),
        r <= qty,
{
    assert(qty as int * bps as int <= qty as int * WHOLE_BASIS_POINTS as int) by (nonlinear_arith)
        requires
            bps <= WHOLE_BASIS_POINTS,
    ;
    assert((qty as int * bps as int) / 10000 <= (qty as int * 10000) / 10000) by (nonlinear_arith)
        requires
            qty as int * bps as int <= qty as int * 10000,
    ;
    assert((qty as int * 10000) / 10000 == qty) by (nonlinear_arith);
    assert(qty as int * bps as int <= u64::MAX as int * 10000) by (nonlinear_arith)
        requires
            bps <= 10000,
            qty <= u64::MAX,
    ;
    ((qty as u128 * bps as u128) / (WHOLE_BASIS_POINTS as u128)) as u64
}

/// Phase split and conservation of a hybrid match of `qty` units against
/// the opposite side `opp` at its best price `best`: the FIFO phase fills at
/// most `fifo_part(qty, bps)` units, the pro-rata phase at most the rest, and
/// the side loses exactly what both phases filled.
pub proof fn lemma_hybrid_phase_split(opp: Seq<Order>, side: Side, best: u64, qty: nat, bps: nat)
    requires
        side_wf(opp, opposite(side)),
        bps <= WHOLE_BASIS_POINTS,
    ensures
        ({
            let q1 = fifo_part(qty, bps);
            let fills1 = fifo_fills(opp, side, best, q1);
            let opp1 = fifo_book(opp, side, best, q1);
            let level = level_of(opp1, best);
            let q2 = match_quantity(level, (qty - q1) as nat);
            let fills2 = pro_rata_fills(level, q2, 0);
            &&& q1 <= qty
            &&& fills_total(fills1) <= q1
            &&& fills_total(fills2) <= qty - q1
            &&& fills_total(fills1 + fills2) <= qty
            &&& total_quantity(opp) == total_quantity(
                pro_rata_rest(level, q2, 0) + opp1.subrange(level.len() as int, opp1.len() as int),
            ) + fills_total(fills1 + fills2)
        }),
{
    let q1 = fifo_part(qty, bps);
    assert(qty * bps <= qty * 10000) by (nonlinear_arith)
        requires
            bps <= 10000,
    ;
    assert(q1 <= qty) by (nonlinear_arith)
        requires
            q1 == (qty * bps) / 10000,
            qty * bps <= qty * 10000,
    ;
    let fills1 = fifo_fills(opp, side, best, q1);
    let opp1 = fifo_book(opp, side, best, q1);
    lemma_fifo_conservation(opp, side, best, q1);
    lemma_fifo_book_shape(opp, side, best, q1);
    assert forall|i: int| 0 <= i < opp1.len() implies #[trigger] opp1[i].quantity > 0 by {
        assert(opp1[i].side == opposite(side));
    }
    lemma_pro_rata_conservation(opp1, best, (qty - q1) as nat);
    let level = level_of(opp1, best);
    let q2 = match_quantity(level, (qty - q1) as nat);
    lemma_fills_total_append(fills1, pro_rata_fills(level, q2, 0));
}

/// After both phases the opposite side's head is priced no better than
/// before.
proof fn lemma_hybrid_head(opp: Seq<Order>, side: Side, best: u64, q1: nat, q2: nat)
    requires
        side_wf(opp, opposite(side)),
    ensures
        ({
            let mid = fifo_book(opp, side, best, q1);
            let level = level_of(mid, best);
            let after = pro_rata_rest(level, match_quantity(level, q2), 0) + mid.subrange(
                level.len() as int,
                mid.len() as int,
            );
            after.len() > 0 ==> opp.len() > 0 && at_least_as_good(
                opposite(side),
                opp[0].price,
                after[0].price,
            )
        }),
{
    lemma_fifo_book_shape(opp, side, best, q1);
    let mid = fifo_book(opp, side, best, q1);
    let level = level_of(mid, best);
    let d = opp.len() - mid.len();
    if mid.len() > 0 {
        assert(mid[0].price == opp[d].price);
        if d > 0 {
            assert(at_least_as_good(opposite(side), opp[0].price, opp[d].price));
        }
        lemma_level_rest_head(mid, opposite(side), best, match_quantity(level, q2));
    } else {
        assert(level =~= Seq::<Order>::empty());
        assert(pro_rata_rest(level, match_quantity(level, q2), 0) =~= Seq::<Order>::empty());
    }
}

/// A book that fills a fixed fraction of each aggressor in strict arrival
/// order at the best opposite price, then shares the rest over what remains
/// at that price in proportion to resting size.
pub struct HybridMatcher {
    pub bids: VecDeque<Order>,
    pub asks: VecDeque<Order>,
    pub config: HybridConfig,
}

impl HybridMatcher {
    /// Both sides in price-time priority.
    pub open spec fn wf(&self) -> bool {
        &&& side_wf(self.bids@, Side::Buy)
        &&& side_wf(self.asks@, Side::Sell)
    }

    /// The side that orders on `side` rest on.
    pub open spec fn side_of(&self, side: Side) -> Seq<Order> {
        match side {
            Side::Buy => self.bids@,
            Side::Sell => self.asks@,
        }
    }

    /// What a submission of `incoming` does: from this book with `ranked`
    /// ranks issued, it returns `r` and leaves the book `after` with
    /// `ranked_after` ranks issued.
    pub open spec fn outcome(
        &self,
        after: &HybridMatcher,
        incoming: Order,
        r: Seq<Trade>,
        ranked: nat,
        ranked_after: nat,
    ) -> bool {
        let side = incoming.side;
        let own = self.side_of(side);
        let opp = self.side_of(opposite(side));
        let qty = incoming.quantity as nat;
        if incoming.quantity == 0 || incoming.price == 0 || self.config.fifo_basis_points
            > WHOLE_BASIS_POINTS {
            &&& r.len() == 0
            &&& *after == *self
            &&& ranked_after == ranked
        } else if !reaches_best(opp, side, incoming.price) {
            &&& r.len() == 0
            &&& after.side_of(opposite(side)) == opp
            &&& after.side_of(side) == rest(own, incoming)
            &&& ranked_after == ranked
        } else {
            let best = opp[0].price;
            let q1 = fifo_part(qty, self.config.fifo_basis_points as nat);
            let fills1 = fifo_fills(opp, side, best, q1);
            let opp1 = fifo_book(opp, side, best, q1);
            let level = level_of(opp1, best);
            let q2 = match_quantity(level, (qty - q1) as nat);
            let fills2 = pro_rata_fills(level, q2, 0);
            let left = fifo_left(opp, side, best, q1) + (qty - q1 - q2);
            &&& records(r, side, incoming.id, fills1 + fills2, ranked)
            &&& after.side_of(opposite(side)) == pro_rata_rest(level, q2, 0) + opp1.subrange(
                level.len() as int,
                opp1.len() as int,
            )
            &&& after.side_of(side) == if left > 0 {
                rest(own, Order { quantity: left as u64, ..incoming })
            } else {
                own
            }
            &&& ranked_after == ranked + fills1.len() + fills2.len()
        }
    }

    /// An empty book with an even split.
    pub fn new() -> (r: HybridMatcher)
        ensures
            r.wf(),
            r.bids@.len() == 0,
            r.asks@.len() == 0,
            r.config.fifo_basis_points == WHOLE_BASIS_POINTS / 2,
    {
        HybridMatcher { bids: VecDeque::new(), asks: VecDeque::new(), config: HybridConfig::default() }
    }

    /// An empty book with the given split.
    pub fn new_with_config(config: HybridConfig) -> (r: HybridMatcher)
        ensures
            r.wf(),
            r.bids@.len() == 0,
            r.asks@.len() == 0,
            r.config == config,
    {
        HybridMatcher { bids: VecDeque::new(), asks: VecDeque::new(), config }
    }

    /// The best resting bid, if any.
    pub fn best_bid(&self) -> (r: Option<&Order>)
        ensures
            match r {
                Some(o) => self.bids@.len() > 0 && *o == self.bids@[0],
                None => self.bids@.len() == 0,
            },
    {
        if self.bids.len() == 0 {
            None
        } else {
            Some(&self.bids[0])
        }
    }

    /// The best resting ask, if any.
    pub fn best_ask(&self) -> (r: Option<&Order>)
        ensures
            match r {
                Some(o) => self.asks@.len() > 0 && *o == self.asks@[0],
                None => self.asks@.len() == 0,
            },
    {
        if self.asks.len() == 0 {
            None
        } else {
            Some(&self.asks[0])
        }
    }

    /// The number of resting bids.
    pub fn bid_depth(&self) -> (r: usize)
        ensures
            r == self.bids@.len(),
    {
        self.bids.len()
    }

    /// The number of resting asks.
    pub fn ask_depth(&self) -> (r: usize)
        ensures
            r == self.asks@.len(),
    {
        self.asks.len()
    }

    /// Drops every resting order.
    pub fn clear(&mut self)
        ensures
            final(self).bids@.len() == 0,
            final(self).asks@.len() == 0,
            final(self).config == old(self).config,
            final(self).wf(),
    {
        self.bids.clear();
        self.asks.clear();
    }

    /// True when neither side holds an order.
    pub fn is_empty(&self) -> (r: bool)
        ensures
            r == (self.bids@.len() == 0 && self.asks@.len() == 0),
    {
        self.bids.len() == 0 && self.asks.len() == 0
    }

    /// The resting bids, best first.
    pub fn bids_iter(&self) -> (r: Vec<Order>)
        ensures
            r@ == self.bids@,
    {
        snapshot(&self.bids)
    }

    /// The resting asks, best first.
    pub fn asks_iter(&self) -> (r: Vec<Order>)
        ensures
            r@ == self.asks@,
    {
        snapshot(&self.asks)
    }

    /// Matches `incoming` against the best opposite price level: first its
    /// FIFO part in arrival order, then the rest of it pro rata over what is
    /// left at that price.  Any remainder rests on its own side.  An order with
    /// zero quantity or zero price, or a split above the whole, produces no
    /// trades and changes nothing.
    #[verifier::rlimit(50)]
    pub fn match_order(&mut self, incoming: Order, ranks: &mut TradeRanks) -> (r: Vec<Trade>)
        requires
            old(self).wf(),
            old(ranks).has_room(incoming.quantity as nat),
        ensures
            final(self).wf(),
            final(self).config == old(self).config,
            old(self).outcome(final(self), incoming, r@, old(ranks)@, final(ranks)@),
            uncrossed(old(self).bids@, old(self).asks@) && !reaches_best(
                final(self).side_of(opposite(incoming.side)),
                incoming.side,
                incoming.price,
            ) ==> uncrossed(final(self).bids@, final(self).asks@),
    {
        let mut trades: Vec<Trade> = Vec::new();
        if incoming.quantity == 0 || incoming.price == 0 || self.config.fifo_basis_points
            > WHOLE_BASIS_POINTS {
            return trades;
        }
        let side = incoming.side;
        let q1 = fifo_part_exec(incoming.quantity, self.config.fifo_basis_points);
        let q2 = incoming.quantity - q1;
        let ghost r0 = ranks@;
        let mut rested = incoming;
        let ghost mut tm: Seq<Trade> = seq![];
        let ghost bids0 = self.bids@;
        let ghost asks0 = self.asks@;
        let ghost mut best_price: u64 = 0;
        let left = match side {
            Side::Buy => {
                if self.asks.len() == 0 || !crosses_exec(side, incoming.price, self.asks[0].price) {
                    rest_order(&mut self.bids, incoming);
                    proof {
                        if uncrossed(bids0, asks0) {
                            lemma_rest_keeps_uncrossed(
                                side,
                                bids0,
                                asks0,
                                self.bids@,
                                self.asks@,
                                incoming,
                                true,
                            );
                        }
                    }
                    return trades;
                }
                let best = self.asks[0].price;
                let left1 = sweep_fifo(&mut self.asks, side, incoming.id, best, q1, &mut trades, ranks);
                proof {
                    tm = trades@;
                    best_price = best;
                }
                let left2 = match_level(&mut self.asks, side, incoming.id, best, q2, &mut trades, ranks);
                proof {
                    let opp = old(self).side_of(opposite(side));
                    let opp1 = fifo_book(opp, side, best, q1 as nat);
                    let level = level_of(opp1, best);
                    assert(tm.subrange(0, 0) =~= Seq::<Trade>::empty());
                    assert(trades@.subrange(0, tm.len() as int) == tm);
                    assert(tm.subrange(0, tm.len() as int) =~= tm);
                    crate::book::lemma_records_append(
                        trades@,
                        tm.len() as int,
                        side,
                        incoming.id,
                        fifo_fills(opp, side, best, q1 as nat),
                        pro_rata_fills(level, match_quantity(level, q2 as nat), 0),
                        r0,
                    );
                }
                left1 + left2
            },
            Side::Sell => {
                if self.bids.len() == 0 || !crosses_exec(side, incoming.price, self.bids[0].price) {
                    rest_order(&mut self.asks, incoming);
                    proof {
                        if uncrossed(bids0, asks0) {
                            lemma_rest_keeps_uncrossed(
                                side,
                                asks0,
                                bids0,
                                self.asks@,
                                self.bids@,
                                incoming,
                                true,
                            );
                        }
                    }
                    return trades;
                }
                let best = self.bids[0].price;
                let left1 = sweep_fifo(&mut self.bids, side, incoming.id, best, q1, &mut trades, ranks);
                proof {
                    tm = trades@;
                    best_price = best;
                }
                let left2 = match_level(&mut self.bids, side, incoming.id, best, q2, &mut trades, ranks);
                proof {
                    let opp = old(self).side_of(opposite(side));
                    let opp1 = fifo_book(opp, side, best, q1 as nat);
                    let level = level_of(opp1, best);
                    assert(tm.subrange(0, 0) =~= Seq::<Trade>::empty());
                    assert(trades@.subrange(0, tm.len() as int) == tm);
                    assert(tm.subrange(0, tm.len() as int) =~= tm);
                    crate::book::lemma_records_append(
                        trades@,
                        tm.len() as int,
                        side,
                        incoming.id,
                        fifo_fills(opp, side, best, q1 as nat),
                        pro_rata_fills(level, match_quantity(level, q2 as nat), 0),
                        r0,
                    );
                }
                left1 + left2
            },
        };
        if left > 0 {
            rested.quantity = left;
            match side {
                Side::Buy => rest_order(&mut self.bids, rested),
                Side::Sell => rest_order(&mut self.asks, rested),
            }
        }
        proof {
            let own0 = if side == Side::Buy {
                bids0
            } else {
                asks0
            };
            let opp0 = if side == Side::Buy {
                asks0
            } else {
                bids0
            };
            lemma_hybrid_head(opp0, side, best_price, q1 as nat, q2 as nat);
            if uncrossed(bids0, asks0) && !reaches_best(self.side_of(opposite(side)), side, incoming.price) {
                lemma_rest_keeps_uncrossed(
                    side,
                    own0,
                    opp0,
                    self.side_of(side),
                    self.side_of(opposite(side)),
                    rested,
                    left > 0,
                );
            }
        }
        trades
    }
}

impl Default for HybridMatcher {
    fn default() -> (r: HybridMatcher)
        ensures
            r.wf(),
            r.bids@.len() == 0,
            r.asks@.len() == 0,
    {
        HybridMatcher::new()
    }
}

} // verus!
