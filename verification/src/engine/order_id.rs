//! Order identifiers.
use vstd::prelude::*;

verus! {

/// The identifier a client gives an order. Every lookup goes by it.
#[derive(Clone, Copy, Debug, Hash, PartialEq, Eq, Structural)]
pub struct OrderId(pub u64);

impl OrderId {
    /// Wraps a raw identifier.
    pub fn new(order_id: u64) -> (id: OrderId)
        ensures
            id == OrderId(order_id),
    {
        OrderId(order_id)
    }
}

} // verus!
