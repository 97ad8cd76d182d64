//! The statuses of an order and the steps between them.
use vstd::prelude::*;

verus! {

/// Where an order stands in its life.
#[derive(Clone, Copy, Debug, PartialEq, Eq, Structural)]
pub enum OrderStatus {
    /// Nothing filled yet; the order may trade.
    Open,
    /// Partly filled; the order may still trade.
    Partial,
    /// Cancelled before anything was filled.
    Cancelled,
    /// Cancelled after a partial fill.
    Closed,
    /// Filled in full.
    Completed,
}

impl OrderStatus {
    /// A status in which the order has left the book for good.
    pub open spec fn is_terminal(self) -> bool {
        self == OrderStatus::Cancelled || self == OrderStatus::Closed || self
            == OrderStatus::Completed
    }

    /// One step of the order life cycle: a trade moves `Open` to `Partial` or
    /// `Completed` and `Partial` to `Partial` or `Completed`; a cancellation
    /// moves `Open` to `Cancelled` and `Partial` to `Closed`. Terminal
    /// statuses have no successor.
    pub open spec fn steps_to(self, next: OrderStatus) -> bool {
        match self {
            OrderStatus::Open => next == OrderStatus::Partial || next == OrderStatus::Completed
                || next == OrderStatus::Cancelled,
            OrderStatus::Partial => next == OrderStatus::Partial || next == OrderStatus::Completed
                || next == OrderStatus::Closed,
            _ => false,
        }
    }

    /// `later` can be reached from this status by any number of steps of the
    /// order life cycle, none included.
    pub open spec fn reaches(self, later: OrderStatus) -> bool {
        match self {
            OrderStatus::Open => true,
            OrderStatus::Partial => later == OrderStatus::Partial || later
                == OrderStatus::Completed || later == OrderStatus::Closed,
            _ => later == self,
        }
    }
}

/// Reaching is what stepping gives when repeated: it holds of a status and
/// itself, of the two ends of a step, and of the two ends of two reaches.
pub proof fn lemma_reaches(a: OrderStatus, b: OrderStatus, c: OrderStatus)
    ensures
        a.reaches(a),
        a.steps_to(b) ==> a.reaches(b),
        a.reaches(b) && b.reaches(c) ==> a.reaches(c),
        a.reaches(b) && a != b ==> exists|m: OrderStatus| a.steps_to(m) && m.reaches(b),
{
    if a.reaches(b) && a != b {
        if a == OrderStatus::Open && b == OrderStatus::Closed {
            assert(a.steps_to(OrderStatus::Partial) && OrderStatus::Partial.reaches(b));
        } else {
            assert(a.steps_to(b) && b.reaches(b));
        }
    }
}

impl Default for OrderStatus {
    fn default() -> (status: OrderStatus)
        ensures
            status == OrderStatus::Open,
    {
        OrderStatus::Open
    }
}

} // verus!
