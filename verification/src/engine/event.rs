//! The events that processing a request emits.
use super::order_id::OrderId;
use super::trade::Trade;
use vstd::prelude::*;

verus! {

/// What happened to an order while a request was processed.
#[derive(Clone, Copy, Debug, PartialEq, Eq, Structural)]
pub enum Event {
    /// The order was put into the book.
    Added(OrderId),
    /// The order was cancelled and taken out of the book.
    Removed(OrderId),
    /// Two orders were matched.
    Traded(Trade),
}

impl Event {
    /// The event of an order entering the book.
    pub fn added(order_id: OrderId) -> (event: Event)
        ensures
            event == Event::Added(order_id),
    {
        Event::Added(order_id)
    }

    /// The event of an order leaving the book by cancellation.
    pub fn removed(order_id: OrderId) -> (event: Event)
        ensures
            event == Event::Removed(order_id),
    {
        Event::Removed(order_id)
    }

    /// The event of a match.
    pub fn traded(trade: Trade) -> (event: Event)
        ensures
            event == Event::Traded(trade),
    {
        Event::Traded(trade)
    }
}

} // verus!
