//! Strict price-time priority matching.
use vstd::prelude::*;

use std::collections::VecDeque;

use crate::book::{
    at_least_as_good, crosses, crosses_exec, fills_total, opposite, records, rest, rest_order, side_wf, snapshot,
    total_quantity, trade_is, uncrossed, Fill,
};
use crate::errors::AlgorithmError;
use crate::order::{Order, Side};
use crate::trade::{Trade, TradeRanks};

verus! {

/// The fills of a sweep: an aggressor on `side` with limit `limit` and `qty`
/// units left takes the head of the opposite side `book` while the head
/// crosses, each time for the smaller of the two remaining quantities.
pub open spec fn fifo_fills(book: Seq<Order>, side: Side, limit: u64, qty: nat) -> Seq<Fill>
    decreases book.len(),
{
    if qty == 0 || book.len() == 0 || !crosses(side, limit, book[0].price) {
        seq![]
    } else if book[0].quantity >= qty {
        seq![Fill { maker_id: book[0].id, price: book[0].price, quantity: qty as u64 }]
    } else {
        seq![Fill { maker_id: book[0].id, price: book[0].price, quantity: book[0].quantity }]
            + fifo_fills(book.drop_first(), side, limit, (qty - book[0].quantity) as nat)
    }
}

/// The opposite side after the sweep of `fifo_fills`: filled heads are gone
/// and a partly filled head keeps its place with what is left of it.
pub open spec fn fifo_book(book: Seq<Order>, side: Side, limit: u64, qty: nat) -> Seq<Order>
    decreases book.len(),
{
    if qty == 0 || book.len() == 0 || !crosses(side, limit, book[0].price) {
        book
    } else if book[0].quantity > qty {
        book.update(0, Order { quantity: (book[0].quantity - qty) as u64, ..book[0] })
    } else {
        fifo_book(book.drop_first(), side, limit, (qty - book[0].quantity) as nat)
    }
}

/// What is left of the aggressor's `qty` after the sweep of `fifo_fills`.
pub open spec fn fifo_left(book: Seq<Order>, side: Side, limit: u64, qty: nat) -> nat
    decreases book.len(),
{
    if qty == 0 || book.len() == 0 || !crosses(side, limit, book[0].price) {
        qty
    } else if book[0].quantity >= qty {
        0
    } else {
        fifo_left(book.drop_first(), side, limit, (qty - book[0].quantity) as nat)
    }
}

/// Sweeps the opposite side `book` for an aggressor with id `taker` on
/// `side`, limit `limit` and `qty` units, appending one trade per fill to
/// `trades`.  Returns the units left unfilled.
pub(crate) fn sweep_fifo(
    book: &mut VecDeque<Order>,
    side: Side,
    taker: u64,
    limit: u64,
    qty: u64,
    trades: &mut Vec<Trade>,
    ranks: &mut TradeRanks,
) -> (left: u64)
    requires
        side_wf(old(book)@, opposite(side)),
        old(ranks).has_room(qty as nat),
    ensures
        final(book)@ == fifo_book(old(book)@, side, limit, qty as nat),
        left == fifo_left(old(book)@, side, limit, qty as nat),
        side_wf(final(book)@, opposite(side)),
        final(trades)@.len() == old(trades)@.len() + fifo_fills(old(book)@, side, limit, qty as nat).len(),
        final(trades)@.subrange(0, old(trades)@.len() as int) == old(trades)@,
        records(
            final(trades)@.subrange(old(trades)@.len() as int, final(trades)@.len() as int),
            side,
            taker,
            fifo_fills(old(book)@, side, limit, qty as nat),
            old(ranks)@,
        ),
        final(ranks)@ == old(ranks)@ + fifo_fills(old(book)@, side, limit, qty as nat).len(),
        fifo_fills(old(book)@, side, limit, qty as nat).len() <= qty,
        left <= qty,
{
    let ghost book0 = book@;
    let ghost all = fifo_fills(book0, side, limit, qty as nat);
    let ghost start = trades@.len() as int;
    let ghost r0 = ranks@;
    let ghost mut done: Seq<Fill> = seq![];
    let mut rem: u64 = qty;
    while rem > 0 && book.len() > 0 && crosses_exec(side, limit, book[0].price)
        invariant
            side_wf(book@, opposite(side)),
            done + fifo_fills(book@, side, limit, rem as nat) == all,
            fifo_book(book@, side, limit, rem as nat) == fifo_book(book0, side, limit, qty as nat),
            fifo_left(book@, side, limit, rem as nat) == fifo_left(book0, side, limit, qty as nat),
            trades@.len() == start + done.len(),
            trades@.subrange(0, start) == old(trades)@,
            start == old(trades)@.len(),
            forall|i: int|
                0 <= i < done.len() ==> trade_is(
                    #[trigger] trades@[start + i],
                    side,
                    taker,
                    done[i],
                ) && trades@[start + i].rank == r0 + i + 1,
            ranks@ == r0 + done.len(),
            done.len() + rem <= qty,
            r0 + qty <= u64::MAX,
        decreases rem,
    {
        let ghost b = book@;
        let mut front = book.pop_front().unwrap();
        let m: u64 = if front.quantity < rem {
            front.quantity
        } else {
            rem
        };
        let t = match side {
            Side::Buy => Trade::new(taker, front.id, front.price, m, ranks),
            Side::Sell => Trade::new(front.id, taker, front.price, m, ranks),
        };
        let ghost tr = trades@;
        trades.push(t);
        let ghost f = Fill { maker_id: front.id, price: front.price, quantity: m };
        proof {
            assert(fifo_fills(b, side, limit, rem as nat) == seq![f] + fifo_fills(
                b.drop_first(),
                side,
                limit,
                (rem - m) as nat,
            )) by {
                if b[0].quantity >= rem {
                    assert(fifo_fills(b.drop_first(), side, limit, 0) == Seq::<Fill>::empty());
                    assert(seq![f] + Seq::<Fill>::empty() =~= seq![f]);
                }
            }
            assert(done.push(f) + fifo_fills(b.drop_first(), side, limit, (rem - m) as nat) =~= done
                + (seq![f] + fifo_fills(b.drop_first(), side, limit, (rem - m) as nat)));
            done = done.push(f);
        }
        rem = rem - m;
        front.quantity = front.quantity - m;
        if front.quantity > 0 {
            book.push_front(front);
            proof {
                assert(book@ =~= b.update(0, front));
                assert(rem == 0);
            }
        } else {
            assert(book@ =~= b.drop_first());
        }
        proof {
            assert forall|i: int| 0 <= i < done.len() implies trade_is(
                #[trigger] trades@[start + i],
                side,
                taker,
                done[i],
            ) && trades@[start + i].rank == r0 + i + 1 by {
                if i < done.len() - 1 {
                    assert(trades@[start + i] == tr[start + i]);
                }
            }
        }
    }
    proof {
        assert(done + Seq::<Fill>::empty() =~= done);
        let ts = trades@.subrange(start, trades@.len() as int);
        assert forall|i: int| 0 <= i < ts.len() implies trade_is(
            #[trigger] ts[i],
            side,
            taker,
            all[i],
        ) && ts[i].rank == r0 + i + 1 by {
            assert(ts[i] == trades@[start + i]);
        }
    }
    rem
}

/// The sweep leaves a suffix of the side, whose head may be partly filled,
/// and leaves nothing unfilled while a crossing order still rests.
pub proof fn lemma_fifo_book_shape(book: Seq<Order>, side: Side, limit: u64, qty: nat)
    requires
        side_wf(book, opposite(side)),
    ensures
        fifo_book(book, side, limit, qty).len() <= book.len(),
        side_wf(fifo_book(book, side, limit, qty), opposite(side)),
        forall|i: int|
            0 <= i < fifo_book(book, side, limit, qty).len() ==> (#[trigger] fifo_book(
                book,
                side,
                limit,
                qty,
            )[i]).price == book[i + book.len() - fifo_book(book, side, limit, qty).len()].price,
        fifo_left(book, side, limit, qty) > 0 ==> fifo_book(book, side, limit, qty).len() == 0
            || !crosses(side, limit, fifo_book(book, side, limit, qty)[0].price),
    decreases book.len(),
{
    if qty == 0 || book.len() == 0 || !crosses(side, limit, book[0].price) {
    } else if book[0].quantity > qty {
        let r = fifo_book(book, side, limit, qty);
        assert(book[0].side == opposite(side));
        assert forall|i: int, j: int| 0 <= i < j < r.len() implies at_least_as_good(
            opposite(side),
            #[trigger] r[i].price,
            #[trigger] r[j].price,
        ) by {
            assert(at_least_as_good(opposite(side), book[i].price, book[j].price));
        }
        assert forall|i: int| 0 <= i < r.len() implies #[trigger] r[i].side == opposite(side)
            && r[i].price > 0 && r[i].quantity > 0 by {
            assert(book[i].side == opposite(side));
        }
    } else {
        let t = book.drop_first();
        assert(side_wf(t, opposite(side))) by {
            assert forall|i: int| 0 <= i < t.len() implies #[trigger] t[i] == book[i + 1] by {}
        }
        lemma_fifo_book_shape(t, side, limit, (qty - book[0].quantity) as nat);
        let r = fifo_book(t, side, limit, (qty - book[0].quantity) as nat);
        assert forall|i: int| 0 <= i < r.len() implies (#[trigger] r[i]).price == book[i
            + book.len() - r.len()].price by {
            assert(t[i + t.len() - r.len()] == book[i + book.len() - r.len()]);
        }
    }
}

/// Conservation of a FIFO sweep: the fills and the unfilled rest make up
/// the aggressor's quantity, and the fills are exactly what the opposite
/// side loses.
pub proof fn lemma_fifo_conservation(book: Seq<Order>, side: Side, limit: u64, qty: nat)
    ensures
        fills_total(fifo_fills(book, side, limit, qty)) + fifo_left(book, side, limit, qty) == qty,
        total_quantity(book) == total_quantity(fifo_book(book, side, limit, qty)) + fills_total(
            fifo_fills(book, side, limit, qty),
        ),
    decreases book.len(),
{
    if qty == 0 || book.len() == 0 || !crosses(side, limit, book[0].price) {
    } else {
        let f = Fill { maker_id: book[0].id, price: book[0].price, quantity: book[0].quantity };
        if book[0].quantity > qty {
            let b1 = book.update(0, Order { quantity: (book[0].quantity - qty) as u64, ..book[0] });
            assert(b1.drop_first() =~= book.drop_first());
            let g = Fill { maker_id: book[0].id, price: book[0].price, quantity: qty as u64 };
            assert(seq![g].drop_first() =~= Seq::<Fill>::empty());
            assert(fills_total(seq![g]) == g.quantity + fills_total(Seq::<Fill>::empty()));
        } else if book[0].quantity == qty {
            let g = Fill { maker_id: book[0].id, price: book[0].price, quantity: qty as u64 };
            assert(seq![g].drop_first() =~= Seq::<Fill>::empty());
            lemma_fifo_conservation(book.drop_first(), side, limit, 0);
        } else {
            let rest_fills = fifo_fills(book.drop_first(), side, limit, (qty - book[0].quantity) as nat);
            lemma_fifo_conservation(book.drop_first(), side, limit, (qty - book[0].quantity) as nat);
            assert((seq![f] + rest_fills).drop_first() =~= rest_fills);
        }
    }
}

/// Time and price priority of a FIFO sweep: the fills take the side's
/// orders from the head, one each and in order, each at that order's own
/// price and for a positive quantity; every order filled before the last
/// one is filled in full.
pub proof fn lemma_fifo_fills_prefix(book: Seq<Order>, side: Side, limit: u64, qty: nat)
    requires
        side_wf(book, opposite(side)),
    ensures
        fifo_fills(book, side, limit, qty).len() <= book.len(),
        forall|k: int|
            0 <= k < fifo_fills(book, side, limit, qty).len() ==> {
                let f = #[trigger] fifo_fills(book, side, limit, qty)[k];
                &&& f.maker_id == book[k].id
                &&& f.price == book[k].price
                &&& f.quantity > 0
                &&& f.quantity <= book[k].quantity
                &&& k + 1 < fifo_fills(book, side, limit, qty).len() ==> f.quantity == book[k].quantity
            },
    decreases book.len(),
{
    if qty == 0 || book.len() == 0 || !crosses(side, limit, book[0].price) {
    } else if book[0].quantity >= qty {
    } else {
        let t = book.drop_first();
        assert(book[0].side == opposite(side));
        assert(side_wf(t, opposite(side))) by {
            assert forall|i: int| 0 <= i < t.len() implies #[trigger] t[i] == book[i + 1] by {}
        }
        lemma_fifo_fills_prefix(t, side, limit, (qty - book[0].quantity) as nat);
        let r = fifo_fills(t, side, limit, (qty - book[0].quantity) as nat);
        let f = Fill { maker_id: book[0].id, price: book[0].price, quantity: book[0].quantity };
        let all = fifo_fills(book, side, limit, qty);
        assert(all == seq![f] + r);
        assert forall|k: int| 0 < k < all.len() implies #[trigger] all[k] == r[k - 1] && book[k]
            == t[k - 1] by {}
    }
}

/// A book that matches strictly by price, then by arrival.
pub struct FifoMatcher {
    pub bids: VecDeque<Order>,
    pub asks: VecDeque<Order>,
}

impl FifoMatcher {
    /// Both sides in price-time priority, and the best bid below the best ask.
    pub open spec fn wf(&self) -> bool {
        &&& side_wf(self.bids@, Side::Buy)
        &&& side_wf(self.asks@, Side::Sell)
        &&& uncrossed(self.bids@, self.asks@)
    }

    /// The side that orders on `side` rest on.
    pub open spec fn side_of(&self, side: Side) -> Seq<Order> {
        match side {
            Side::Buy => self.bids@,
            Side::Sell => self.asks@,
        }
    }

    /// What a submission of `incoming` does: from this book with `ranked`
    /// ranks issued, it returns `r` and leaves the book `after` with
    /// `ranked_after` ranks issued.
    pub open spec fn outcome(
        &self,
        after: &FifoMatcher,
        incoming: Order,
        r: Result<Vec<Trade>, AlgorithmError>,
        ranked: nat,
        ranked_after: nat,
    ) -> bool {
        &&& (incoming.quantity == 0 || incoming.price == 0) <==> r is Err
        &&& r is Err ==> r->Err_0 is InvalidOrder && *after == *self && ranked_after == ranked
        &&& r is Ok ==> {
            let side = incoming.side;
            let opp = self.side_of(opposite(side));
            let q = incoming.quantity as nat;
            let fills = fifo_fills(opp, side, incoming.price, q);
            let left = fifo_left(opp, side, incoming.price, q);
            &&& records(r->Ok_0@, side, incoming.id, fills, ranked)
            &&& after.side_of(opposite(side)) == fifo_book(opp, side, incoming.price, q)
            &&& after.side_of(side) == if left > 0 {
                rest(self.side_of(side), Order { quantity: left as u64, ..incoming })
            } else {
                self.side_of(side)
            }
            &&& ranked_after == ranked + fills.len()
        }
    }

    pub fn new() -> (r: FifoMatcher)
        ensures
            r.wf(),
            r.bids@.len() == 0,
            r.asks@.len() == 0,
    {
        FifoMatcher { bids: VecDeque::new(), asks: VecDeque::new() }
    }

    /// The best resting bid, if any.
    pub fn best_bid(&self) -> (r: Option<&Order>)
        ensures
            match r {
                Some(o) => self.bids@.len() > 0 && *o == self.bids@[0],
                None => self.bids@.len() == 0,
            },
    {
        if self.bids.len() == 0 {
            None
        } else {
            Some(&self.bids[0])
        }
    }

    /// The best resting ask, if any.
    pub fn best_ask(&self) -> (r: Option<&Order>)
        ensures
            match r {
                Some(o) => self.asks@.len() > 0 && *o == self.asks@[0],
                None => self.asks@.len() == 0,
            },
    {
        if self.asks.len() == 0 {
            None
        } else {
            Some(&self.asks[0])
        }
    }

    /// The number of resting bids.
    pub fn bid_depth(&self) -> (r: usize)
        ensures
            r == self.bids@.len(),
    {
        self.bids.len()
    }

    /// The number of resting asks.
    pub fn ask_depth(&self) -> (r: usize)
        ensures
            r == self.asks@.len(),
    {
        self.asks.len()
    }

    /// Drops every resting order.
    pub fn clear(&mut self)
        ensures
            final(self).bids@.len() == 0,
            final(self).asks@.len() == 0,
            final(self).wf(),
    {
        self.bids.clear();
        self.asks.clear();
    }

    /// True when neither side holds an order.
    pub fn is_empty(&self) -> (r: bool)
        ensures
            r == (self.bids@.len() == 0 && self.asks@.len() == 0),
    {
        self.bids.len() == 0 && self.asks.len() == 0
    }

    /// The resting bids, best first.
    pub fn bids_iter(&self) -> (r: Vec<Order>)
        ensures
            r@ == self.bids@,
    {
        snapshot(&self.bids)
    }

    /// The resting asks, best first.
    pub fn asks_iter(&self) -> (r: Vec<Order>)
        ensures
            r@ == self.asks@,
    {
        snapshot(&self.asks)
    }

    /// How many trades `ranks` has ranked since creation or its last reset.
    pub fn get_trade_count(ranks: &TradeRanks) -> (r: u64)
        ensures
            r == ranks@,
    {
        ranks.trade_count()
    }

    /// Starts `ranks` again at rank 1.  Only safe while no book is matching.
    pub fn reset_trade_rank(ranks: &mut TradeRanks)
        ensures
            final(ranks)@ == 0,
    {
        ranks.reset();
    }

    /// Matches `incoming` against the opposite side, best price first and in
    /// arrival order within a price, and rests any remainder on its own side.
    /// An order with zero quantity or zero price is rejected and changes nothing.
    #[verifier::rlimit(50)]
    pub fn match_order(&mut self, incoming: Order, ranks: &mut TradeRanks) -> (r: Result<
        Vec<Trade>,
        AlgorithmError,
    >)
        requires
            old(self).wf(),
            old(ranks).has_room(incoming.quantity as nat),
        ensures
            final(self).wf(),
            old(self).outcome(final(self), incoming, r, old(ranks)@, final(ranks)@),
    {
        if incoming.quantity == 0 {
            return Err(AlgorithmError::InvalidOrder("Order quantity cannot be zero".to_string()));
        }
        if incoming.price == 0 {
            return Err(AlgorithmError::InvalidOrder("Order price must be positive".to_string()));
        }
        let mut trades: Vec<Trade> = Vec::new();
        let mut rested = incoming;
        let ghost a0 = self.asks@;
        let ghost b0 = self.bids@;
        match incoming.side {
            Side::Buy => {
                proof {
                    lemma_fifo_book_shape(self.asks@, Side::Buy, incoming.price, incoming.quantity as nat);
                }
                let left = sweep_fifo(
                    &mut self.asks,
                    Side::Buy,
                    incoming.id,
                    incoming.price,
                    incoming.quantity,
                    &mut trades,
                    ranks,
                );
                if left > 0 {
                    rested.quantity = left;
                    rest_order(&mut self.bids, rested);
                }
                proof {
                    let o1 = self.asks@;
                    let o0 = a0;
                    if o1.len() > 0 {
                        let d = o0.len() - o1.len();
                        assert(o1[0].price == o0[d].price);
                        if d > 0 {
                            assert(at_least_as_good(Side::Sell, o0[0].price, o0[d].price));
                        }
                    }
                    let b1 = self.bids@;
                    if b1.len() > 0 && o1.len() > 0 {
                        if left > 0 {
                            let k = crate::book::level_end(b0, Side::Buy, rested.price);
                            if k == 0 {
                                assert(b1[0] == rested);
                            } else {
                                assert(b1[0] == b0[0]);
                            }
                        } else {
                            assert(b1 == b0);
                        }
                    }
                    assert(uncrossed(self.bids@, self.asks@));
                }
            },
            Side::Sell => {
                proof {
                    lemma_fifo_book_shape(self.bids@, Side::Sell, incoming.price, incoming.quantity as nat);
                }
                let left = sweep_fifo(
                    &mut self.bids,
                    Side::Sell,
                    incoming.id,
                    incoming.price,
                    incoming.quantity,
                    &mut trades,
                    ranks,
                );
                if left > 0 {
                    rested.quantity = left;
                    rest_order(&mut self.asks, rested);
                }
                proof {
                    let o1 = self.bids@;
                    let o0 = b0;
                    if o1.len() > 0 {
                        let d = o0.len() - o1.len();
                        assert(o1[0].price == o0[d].price);
                        if d > 0 {
                            assert(at_least_as_good(Side::Buy, o0[0].price, o0[d].price));
                        }
                    }
                    let s1 = self.asks@;
                    if s1.len() > 0 && o1.len() > 0 {
                        if left > 0 {
                            let k = crate::book::level_end(a0, Side::Sell, rested.price);
                            if k == 0 {
                                assert(s1[0] == rested);
                            } else {
                                assert(s1[0] == a0[0]);
                            }
                        } else {
                            assert(s1 == a0);
                        }
                    }
                    assert(uncrossed(self.bids@, self.asks@));
                }
            },
        }
        proof {
            assert(trades@.subrange(0, trades@.len() as int) =~= trades@);
        }
        Ok(trades)
    }
}

impl Default for FifoMatcher {
    fn default() -> (r: FifoMatcher)
        ensures
            r.wf(),
            r.bids@.len() == 0,
            r.asks@.len() == 0,
    {
        FifoMatcher::new()
    }
}

} // verus!
