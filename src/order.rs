use vstd::prelude::*;

verus! {

/// The side of an order: a buy (bid) or a sell (ask).
#[derive(Debug, Clone, Copy, PartialEq, Eq, Hash, Structural)]
pub enum Side {
    Buy,
    Sell,
}

/// A resting or incoming instruction to trade.
///
/// Prices are fixed-point integers in ticks; `timestamp` is wall-clock
/// milliseconds since the Unix epoch, kept for audit only.
#[derive(Debug, Clone, Copy, PartialEq, Eq, Structural)]
pub struct Order {
    pub id: u64,
    pub side: Side,
    pub price: u64,
    pub quantity: u64,
    pub timestamp: i64,
}

/// Relies on chrono's `Utc::now` and `DateTime::timestamp_millis`: the
/// current wall-clock time in milliseconds since the Unix epoch.
#[verifier::external_body]
pub(crate) fn now_millis() -> (r: i64) {
    chrono::Utc::now().timestamp_millis()
}

impl Order {
    /// Creates an order stamped with the current wall-clock time.
    pub fn new(id: u64, side: Side, price: u64, quantity: u64) -> (r: Order)
        ensures
            r.id == id,
            r.side == side,
            r.price == price,
            r.quantity == quantity,
    {
        Order { id, side, price, quantity, timestamp: now_millis() }
    }

    pub fn is_buy(&self) -> (r: bool)
        ensures
            r == (self.side == Side::Buy),
    {
        matches!(self.side, Side::Buy)
    }

    pub fn is_sell(&self) -> (r: bool)
        ensures
            r == (self.side == Side::Sell),
    {
        matches!(self.side, Side::Sell)
    }

    /// True when no quantity remains.
    pub fn is_empty(&self) -> (r: bool)
        ensures
            r == (self.quantity == 0),
    {
        self.quantity == 0
    }

    /// Price times quantity, in ticks times units.
    pub fn total_value(&self) -> (r: u128)
        ensures
            r == self.price * self.quantity,
    {
        proof {
            vstd::arithmetic::mul::lemma_mul_upper_bound(
                self.price as int,
                u64::MAX as int,
                self.quantity as int,
                u64::MAX as int,
            );
            assert(u64::MAX as int * u64::MAX as int <= u128::MAX) by (nonlinear_arith);
        }
        self.price as u128 * self.quantity as u128
    }

    /// Reduces the remaining quantity by `amount`.
    pub fn reduce_quantity(&mut self, amount: u64)
        requires
            amount <= old(self).quantity,
        ensures
            *final(self) == (Order { quantity: (old(self).quantity - amount) as u64, ..*old(self) }),
    {
        self.quantity = self.quantity - amount;
    }
}

} // verus!
