//! The model shared by every matching book: sides kept in price-time
//! priority, crossing, and how fills become trades.
use vstd::prelude::*;

use std::collections::VecDeque;

use crate::order::{Order, Side};
use crate::trade::Trade;

verus! {

/// The side an aggressor on `side` trades against.
pub open spec fn opposite(side: Side) -> Side {
    match side {
        Side::Buy => Side::Sell,
        Side::Sell => Side::Buy,
    }
}

/// True when a resting price `p` on `side` ranks at least as well as `q`:
/// higher is better for bids, lower is better for asks.
pub open spec fn at_least_as_good(side: Side, p: u64, q: u64) -> bool {
    match side {
        Side::Buy => p >= q,
        Side::Sell => p <= q,
    }
}

/// True when an aggressor on `side` with limit price `limit` may trade
/// against a resting order priced `p`.
pub open spec fn crosses(side: Side, limit: u64, p: u64) -> bool {
    match side {
        Side::Buy => p <= limit,
        Side::Sell => p >= limit,
    }
}

/// A well-formed side of a book: every order belongs to `side`, has a positive
/// price and quantity, and the sequence runs from best price to worst.
pub open spec fn side_wf(s: Seq<Order>, side: Side) -> bool {
    &&& forall|i: int|
        0 <= i < s.len() ==> #[trigger] s[i].side == side && s[i].price > 0 && s[i].quantity > 0
    &&& forall|i: int, j: int|
        0 <= i < j < s.len() ==> at_least_as_good(side, #[trigger] s[i].price, #[trigger] s[j].price)
}

/// The best bid is strictly below the best ask whenever both exist.
pub open spec fn uncrossed(bids: Seq<Order>, asks: Seq<Order>) -> bool {
    bids.len() > 0 && asks.len() > 0 ==> bids[0].price < asks[0].price
}

/// The number of leading orders priced at least as well as `price`: the
/// place where a new order at `price` joins the queue.
pub open spec fn level_end(s: Seq<Order>, side: Side, price: u64) -> nat
    decreases s.len(),
{
    if s.len() == 0 {
        0
    } else if at_least_as_good(side, s[0].price, price) {
        1 + level_end(s.drop_first(), side, price)
    } else {
        0
    }
}

/// The side after `o` has joined it behind every order of equal or better price.
pub open spec fn rest(s: Seq<Order>, o: Order) -> Seq<Order> {
    s.insert(level_end(s, o.side, o.price) as int, o)
}

/// The total quantity resting in `s`.
pub open spec fn total_quantity(s: Seq<Order>) -> nat
    decreases s.len(),
{
    if s.len() == 0 {
        0
    } else {
        (s[0].quantity + total_quantity(s.drop_first())) as nat
    }
}

/// One execution against a resting order: who the maker was, the maker's
/// price, and how many units changed hands.
#[derive(Debug, Clone, Copy, PartialEq, Eq, Structural)]
pub struct Fill {
    pub maker_id: u64,
    pub price: u64,
    pub quantity: u64,
}

/// The total quantity of a sequence of fills.
pub open spec fn fills_total(fs: Seq<Fill>) -> nat
    decreases fs.len(),
{
    if fs.len() == 0 {
        0
    } else {
        (fs[0].quantity + fills_total(fs.drop_first())) as nat
    }
}

/// `t` records fill `f` taken by an aggressor with id `taker` on `side`.
pub open spec fn trade_is(t: Trade, side: Side, taker: u64, f: Fill) -> bool {
    &&& t.price == f.price
    &&& t.quantity == f.quantity
    &&& match side {
        Side::Buy => t.buy_id == taker && t.sell_id == f.maker_id,
        Side::Sell => t.buy_id == f.maker_id && t.sell_id == taker,
    }
}

/// `ts` records the fills `fs`, one trade each and in order, ranked
/// consecutively after `ranked`, the number of ranks issued before them.
pub open spec fn records(ts: Seq<Trade>, side: Side, taker: u64, fs: Seq<Fill>, ranked: nat) -> bool {
    &&& ts.len() == fs.len()
    &&& forall|i: int|
        0 <= i < ts.len() ==> trade_is(#[trigger] ts[i], side, taker, fs[i]) && ts[i].rank == ranked
            + i + 1
}

/// Records of two runs of fills, one after the other, record the joined run.
pub proof fn lemma_records_append(
    ts: Seq<Trade>,
    mid: int,
    side: Side,
    taker: u64,
    f1: Seq<Fill>,
    f2: Seq<Fill>,
    ranked: nat,
)
    requires
        0 <= mid <= ts.len(),
        records(ts.subrange(0, mid), side, taker, f1, ranked),
        records(ts.subrange(mid, ts.len() as int), side, taker, f2, ranked + f1.len()),
    ensures
        records(ts, side, taker, f1 + f2, ranked),
{
    assert forall|k: int| 0 <= k < ts.len() implies trade_is(
        #[trigger] ts[k],
        side,
        taker,
        (f1 + f2)[k],
    ) && ts[k].rank == ranked + k + 1 by {
        if k < mid {
            assert(ts.subrange(0, mid)[k] == ts[k]);
        } else {
            assert(ts.subrange(mid, ts.len() as int)[k - mid] == ts[k]);
        }
    }
}

/// `uncrossed` seen from an aggressor on `side`: `own` is its side of the
/// book and `opp` the other.
pub open spec fn uncrossed_for(side: Side, own: Seq<Order>, opp: Seq<Order>) -> bool {
    match side {
        Side::Buy => uncrossed(own, opp),
        Side::Sell => uncrossed(opp, own),
    }
}

/// A submission keeps the book uncrossed when the opposite side's head gets
/// no better and, if a remainder `o` rests, nothing left opposite crosses it.
pub proof fn lemma_rest_keeps_uncrossed(
    side: Side,
    own0: Seq<Order>,
    opp0: Seq<Order>,
    own1: Seq<Order>,
    opp1: Seq<Order>,
    o: Order,
    rested: bool,
)
    requires
        o.side == side,
        uncrossed_for(side, own0, opp0),
        opp1.len() > 0 ==> opp0.len() > 0 && at_least_as_good(
            opposite(side),
            opp0[0].price,
            opp1[0].price,
        ),
        rested ==> own1 == rest(own0, o) && level_end(own0, side, o.price) <= own0.len() && !(
        opp1.len() > 0 && crosses(side, o.price, opp1[0].price)),
        !rested ==> own1 == own0,
    ensures
        uncrossed_for(side, own1, opp1),
{
    if rested && own1.len() > 0 && opp1.len() > 0 {
        if level_end(own0, side, o.price) == 0 {
            assert(own1[0] == o);
        } else {
            assert(own1[0] == own0[0]);
        }
    }
}

/// Resting quantity adds up over a split of the side.
pub proof fn lemma_total_quantity_append(a: Seq<Order>, b: Seq<Order>)
    ensures
        total_quantity(a + b) == total_quantity(a) + total_quantity(b),
    decreases a.len(),
{
    if a.len() > 0 {
        assert((a + b).drop_first() =~= a.drop_first() + b);
        lemma_total_quantity_append(a.drop_first(), b);
    } else {
        assert(a + b =~= b);
    }
}

/// Filled quantity adds up over consecutive runs of fills.
pub proof fn lemma_fills_total_append(a: Seq<Fill>, b: Seq<Fill>)
    ensures
        fills_total(a + b) == fills_total(a) + fills_total(b),
    decreases a.len(),
{
    if a.len() > 0 {
        assert((a + b).drop_first() =~= a.drop_first() + b);
        lemma_fills_total_append(a.drop_first(), b);
    } else {
        assert(a + b =~= b);
    }
}

/// Trade ranks rise strictly: within the trades of one submission, and from
/// every trade of one submission to every trade of a later one drawing on
/// the same ranks.
pub proof fn lemma_rank_order(
    ts1: Seq<Trade>,
    side1: Side,
    taker1: u64,
    fs1: Seq<Fill>,
    ranked1: nat,
    ts2: Seq<Trade>,
    side2: Side,
    taker2: u64,
    fs2: Seq<Fill>,
    ranked2: nat,
)
    requires
        records(ts1, side1, taker1, fs1, ranked1),
        records(ts2, side2, taker2, fs2, ranked2),
        ranked2 >= ranked1 + fs1.len(),
    ensures
        forall|i: int, j: int| 0 <= i < j < ts1.len() ==> ts1[i].rank < ts1[j].rank,
        forall|i: int, j: int| 0 <= i < ts1.len() && 0 <= j < ts2.len() ==> ts1[i].rank < ts2[j].rank,
{
    assert forall|i: int, j: int| 0 <= i < ts1.len() && 0 <= j < ts2.len() implies ts1[i].rank
        < ts2[j].rank by {
        assert(trade_is(ts1[i], side1, taker1, fs1[i]));
        assert(trade_is(ts2[j], side2, taker2, fs2[j]));
    }
    assert forall|i: int, j: int| 0 <= i < j < ts1.len() implies ts1[i].rank < ts1[j].rank by {
        assert(trade_is(ts1[i], side1, taker1, fs1[i]));
        assert(trade_is(ts1[j], side1, taker1, fs1[j]));
    }
}

pub(crate) fn at_least_as_good_exec(side: Side, p: u64, q: u64) -> (r: bool)
    ensures
        r == at_least_as_good(side, p, q),
{
    match side {
        Side::Buy => p >= q,
        Side::Sell => p <= q,
    }
}

pub(crate) fn crosses_exec(side: Side, limit: u64, p: u64) -> (r: bool)
    ensures
        r == crosses(side, limit, p),
{
    match side {
        Side::Buy => p <= limit,
        Side::Sell => p >= limit,
    }
}

proof fn lemma_level_end(s: Seq<Order>, side: Side, price: u64, k: int)
    requires
        0 <= k <= s.len(),
        forall|j: int| 0 <= j < k ==> at_least_as_good(side, #[trigger] s[j].price, price),
        k == s.len() || !at_least_as_good(side, s[k].price, price),
    ensures
        level_end(s, side, price) == k,
    decreases k,
{
    if k > 0 {
        assert(at_least_as_good(side, s[0].price, price));
        let t = s.drop_first();
        assert forall|j: int| 0 <= j < k - 1 implies at_least_as_good(
            side,
            #[trigger] t[j].price,
            price,
        ) by {
            assert(t[j] == s[j + 1]);
        }
        if k < s.len() {
            assert(t[k - 1] == s[k]);
        }
        lemma_level_end(t, side, price, k - 1);
    }
}

/// Adds `o` to its side behind every order of equal or better price.
pub(crate) fn rest_order(side: &mut VecDeque<Order>, o: Order)
    requires
        side_wf(old(side)@, o.side),
        o.price > 0,
        o.quantity > 0,
    ensures
        final(side)@ == rest(old(side)@, o),
        side_wf(final(side)@, o.side),
        level_end(old(side)@, o.side, o.price) <= old(side)@.len(),
{
    let mut i: usize = 0;
    while i < side.len() && at_least_as_good_exec(o.side, side[i].price, o.price)
        invariant
            0 <= i <= side@.len(),
            side@ == old(side)@,
            forall|j: int| 0 <= j < i ==> at_least_as_good(o.side, #[trigger] side@[j].price, o.price),
        decreases side@.len() - i,
    {
        i = i + 1;
    }
    proof {
        lemma_level_end(side@, o.side, o.price, i as int);
    }
    let ghost s0 = side@;
    side.insert(i, o);
    proof {
        let s1 = side@;
        assert forall|a: int, b: int| 0 <= a < b < s1.len() implies at_least_as_good(
            o.side,
            #[trigger] s1[a].price,
            #[trigger] s1[b].price,
        ) by {
            if b < i {
            } else if b == i {
            } else if a < i {
                assert(at_least_as_good(o.side, s0[a].price, s0[b - 1].price));
            } else if a == i {
                assert(!at_least_as_good(o.side, s0[i as int].price, o.price));
                assert(at_least_as_good(o.side, s0[i as int].price, s0[b - 1].price) || b - 1 == i);
            } else {
                assert(at_least_as_good(o.side, s0[a - 1].price, s0[b - 1].price));
            }
        }
    }
}

/// A copy of a side, from best price to worst.
pub(crate) fn snapshot(side: &VecDeque<Order>) -> (r: Vec<Order>)
    ensures
        r@ == side@,
{
    let mut r: Vec<Order> = Vec::new();
    let mut i: usize = 0;
    while i < side.len()
        invariant
            0 <= i <= side@.len(),
            r@ == side@.subrange(0, i as int),
        decreases side@.len() - i,
    {
        r.push(side[i]);
        i = i + 1;
        assert(r@ == side@.subrange(0, i as int));
    }
    r
}

} // verus!
