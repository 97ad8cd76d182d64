//! Trades.
use super::order::{trade_between, Order};
use super::order_id::OrderId;
use vstd::prelude::*;

verus! {

/// Why two orders could not be turned into a trade.
#[derive(Clone, Copy, Debug, PartialEq, Eq, Structural)]
pub enum TradeError {
    /// Taker and maker must be opposite each other, and their prices must cross.
    MismatchSides,
}

impl TradeError {
    /// The error in words.
    pub fn message(&self) -> (text: &'static str)
        ensures
            text@ == "taker and maker must be opposite each other"@,
    {
        match self {
            TradeError::MismatchSides => "taker and maker must be opposite each other",
        }
    }
}

/// One match between an incoming order and a resting one.
#[derive(Clone, Copy, Debug, PartialEq, Eq, Structural)]
pub struct Trade {
    /// The incoming order.
    pub taker: OrderId,
    /// The resting order.
    pub maker: OrderId,
    /// The quantity exchanged.
    pub amount: u64,
    /// The price of the execution: the maker's limit price.
    pub price: u64,
}

impl Trade {
    /// The trade that `taker` and `maker` make, which fills both.
    ///
    /// Fails with `MismatchSides`, and changes neither order, unless the two
    /// stand on opposite sides at prices that cross.
    pub fn try_from(pair: (&mut Order, &mut Order)) -> (made: Result<Trade, TradeError>)
        requires
            old(pair.0)@.valid(),
            old(pair.1)@.valid(),
        ensures
            made == match trade_between(old(pair.0)@, old(pair.1)@) {
                Some(trade) => Ok::<Trade, TradeError>(trade),
                None => Err::<Trade, TradeError>(TradeError::MismatchSides),
            },
            final(pair.0)@ == old(pair.0)@.after_trade(old(pair.1)@),
            final(pair.1)@ == old(pair.1)@.after_trade(old(pair.0)@),
    {
        let (taker, maker) = pair;
        match taker.trade(maker) {
            Some(trade) => Ok(trade),
            None => Err(TradeError::MismatchSides),
        }
    }
}

} // verus!
