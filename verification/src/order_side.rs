//! The two sides of the book.
use vstd::prelude::*;

verus! {

/// The side of the book an order belongs to.
#[derive(Clone, Copy, Debug, PartialEq, Eq, Structural)]
pub enum OrderSide {
    /// Sell side.
    Ask,
    /// Buy side.
    Bid,
}

impl OrderSide {
    /// The other side of the book.
    pub open spec fn spec_opposite(&self) -> OrderSide {
        match self {
            OrderSide::Ask => OrderSide::Bid,
            OrderSide::Bid => OrderSide::Ask,
        }
    }

    /// Returns the side that orders of this side trade against.
    #[verifier::when_used_as_spec(spec_opposite)]
    pub fn opposite(&self) -> (other: OrderSide)
        ensures
            other == self.spec_opposite(),
    {
        match self {
            OrderSide::Ask => OrderSide::Bid,
            OrderSide::Bid => OrderSide::Ask,
        }
    }
}

} // verus!
