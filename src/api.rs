//! The submission port's checks: what it accepts onto the ingress channel.
use vstd::prelude::*;

use crate::types::{Event, OrderIn, Side};

verus! {

/// True when `symbol` is one of the symbols this engine trades.
pub open spec fn whitelisted(symbol: Seq<char>) -> bool {
    symbol == "Pranesh"@ || symbol == "Superman"@ || symbol == "Arnimzola"@
}

pub fn is_valid_symbol(symbol: &str) -> (r: bool)
    ensures
        r == whitelisted(symbol@),
{
    let s = symbol.to_owned();
    s == "Pranesh".to_owned() || s == "Superman".to_owned() || s == "Arnimzola".to_owned()
}

/// Why the port turned a submission away.
#[derive(Debug, Clone, Copy, PartialEq, Eq, Structural)]
pub enum SubmitError {
    /// The symbol is not traded here.
    InvalidSymbol,
    /// The price or the quantity is zero.
    InvalidPriceOrQuantity,
}

/// Checks a submission on `side` and turns it into an ingress event: the
/// symbol must be traded here, the price and quantity positive.
pub fn accept_order(order: OrderIn, side: Side) -> (r: Result<Event, SubmitError>)
    ensures
        !whitelisted(order.symbol@) <==> r == Err::<Event, SubmitError>(SubmitError::InvalidSymbol),
        (whitelisted(order.symbol@) && (order.price == 0 || order.qty == 0)) <==> r == Err::<
            Event,
            SubmitError,
        >(SubmitError::InvalidPriceOrQuantity),
        r matches Ok(e) ==> e.side == side && e.price == order.price && e.qty == order.qty
            && e.symbol@ == order.symbol@,
{
    if !is_valid_symbol(order.symbol.as_str()) {
        return Err(SubmitError::InvalidSymbol);
    }
    if order.price == 0 || order.qty == 0 {
        return Err(SubmitError::InvalidPriceOrQuantity);
    }
    Ok(Event::new_order(side, order.price, order.qty, order.symbol))
}

} // verus!
