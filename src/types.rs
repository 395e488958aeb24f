//! The ingress pipeline's values: what a submitter sends and what a shard
//! receives.
use vstd::prelude::*;

verus! {

/// The side of a submitted order.
#[allow(non_camel_case_types)]
#[derive(Debug, Clone, Copy, PartialEq, Eq, Structural)]
pub enum Side {
    BUY,
    SELL,
}

/// A submission as it arrives at the port: symbol, price in ticks, quantity.
#[derive(Debug)]
pub struct OrderIn {
    pub symbol: String,
    pub price: u64,
    pub qty: u64,
}

/// An order event on its way from the ingress channel to a shard.
#[derive(Debug)]
pub struct Event {
    pub side: Side,
    pub price: u64,
    pub qty: u64,
    pub symbol: String,
}

impl Event {
    pub fn new_order(side: Side, price: u64, qty: u64, symbol: String) -> (r: Event)
        ensures
            r.side == side,
            r.price == price,
            r.qty == qty,
            r.symbol@ == symbol@,
    {
        Event { side, price, qty, symbol }
    }

    /// A copy of the event.
    pub fn duplicate(&self) -> (r: Event)
        ensures
            r.side == self.side,
            r.price == self.price,
            r.qty == self.qty,
            r.symbol@ == self.symbol@,
    {
        Event { side: self.side, price: self.price, qty: self.qty, symbol: self.symbol.clone() }
    }
}

/// A price-priority entry: bids rank higher at a higher price, asks at a
/// lower one.  Two entries are equal when their prices are.
#[derive(Debug, Clone, Copy)]
pub struct Order {
    pub price: u64,
    pub qty: u64,
    pub side: Side,
}

impl Order {
    pub fn new(price: u64, qty: u64, side: Side) -> (r: Order)
        ensures
            r.price == price,
            r.qty == qty,
            r.side == side,
    {
        Order { price, qty, side }
    }
}

/// The order of two integers.
pub open spec fn compare(a: u64, b: u64) -> core::cmp::Ordering {
    if a < b {
        core::cmp::Ordering::Less
    } else if a > b {
        core::cmp::Ordering::Greater
    } else {
        core::cmp::Ordering::Equal
    }
}

/// How `a` ranks against `b`: by price, higher first for bids and lower
/// first for asks, as `a`'s side says.
pub open spec fn priority(a: Order, b: Order) -> core::cmp::Ordering {
    match a.side {
        Side::BUY => compare(a.price, b.price),
        Side::SELL => compare(b.price, a.price),
    }
}

fn compare_exec(a: u64, b: u64) -> (r: core::cmp::Ordering)
    ensures
        r == compare(a, b),
{
    if a < b {
        core::cmp::Ordering::Less
    } else if a > b {
        core::cmp::Ordering::Greater
    } else {
        core::cmp::Ordering::Equal
    }
}

impl PartialEq for Order {
    fn eq(&self, other: &Order) -> (r: bool) {
        self.price == other.price
    }
}

impl vstd::std_specs::cmp::PartialEqSpecImpl for Order {
    open spec fn obeys_eq_spec() -> bool {
        true
    }

    open spec fn eq_spec(&self, other: &Order) -> bool {
        self.price == other.price
    }
}

impl Eq for Order {

}

impl PartialOrd for Order {
    fn partial_cmp(&self, other: &Order) -> (r: Option<core::cmp::Ordering>) {
        match self.side {
            Side::BUY => Some(compare_exec(self.price, other.price)),
            Side::SELL => Some(compare_exec(other.price, self.price)),
        }
    }
}

impl vstd::std_specs::cmp::PartialOrdSpecImpl for Order {
    open spec fn obeys_partial_cmp_spec() -> bool {
        true
    }

    open spec fn partial_cmp_spec(&self, other: &Order) -> Option<core::cmp::Ordering> {
        Some(priority(*self, *other))
    }
}

} // verus!
