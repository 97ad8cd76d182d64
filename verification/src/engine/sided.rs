//! Orders that are known to stand on one given side.
use super::order::{trade_between, Order, OrderError, OrderView};
use super::order_id::OrderId;
use super::order_status::OrderStatus;
use super::trade::Trade;
use crate::order_side::OrderSide;
use std::ops::Deref;
use vstd::prelude::*;
use vstd::std_specs::convert::{FromSpecImpl, TryFromSpecImpl};

verus! {

/// An order that is known to stand on the ask side.
#[derive(Debug)]
pub struct AskOrder(Order);

/// An order that is known to stand on the bid side.
#[derive(Debug)]
pub struct BidOrder(Order);

impl View for AskOrder {
    type V = OrderView;

    closed spec fn view(&self) -> OrderView {
        self.0@
    }
}

impl View for BidOrder {
    type V = OrderView;

    closed spec fn view(&self) -> OrderView {
        self.0@
    }
}

impl AskOrder {
    #[verifier::type_invariant]
    spec fn on_ask_side(self) -> bool {
        self.0@.side == OrderSide::Ask
    }

    /// The order as an order of either side.
    pub closed spec fn order(self) -> Order {
        self.0
    }

    /// The identifier the client gave the order.
    pub fn id(&self) -> (id: OrderId)
        ensures
            id == self@.id,
    {
        self.0.id()
    }

    /// The side of the book the order stands on, which is the ask side.
    pub fn side(&self) -> (side: OrderSide)
        ensures
            side == self@.side,
            side == OrderSide::Ask,
    {
        proof {
            use_type_invariant(self);
        }
        self.0.side()
    }

    /// The limit price, in minor units.
    pub fn limit_price(&self) -> (price: u64)
        ensures
            price == self@.limit_price,
    {
        self.0.limit_price()
    }

    /// The quantity still to be matched.
    pub fn remaining(&self) -> (remaining: u64)
        requires
            self@.filled <= self@.amount,
        ensures
            remaining == self@.remaining(),
    {
        self.0.remaining()
    }

    /// The current status.
    pub fn status(&self) -> (status: OrderStatus)
        ensures
            status == self@.status,
    {
        self.0.status()
    }

    /// Whether the order has left the book for good.
    pub fn is_closed(&self) -> (closed: bool)
        ensures
            closed == self@.is_closed(),
    {
        self.0.is_closed()
    }

    /// Matches this ask, as taker, against the bid `order`, as maker. The
    /// two trade exactly when the ask's limit price is no higher than the
    /// bid's.
    pub fn trade(&mut self, order: &mut BidOrder) -> (trade: Option<Trade>)
        requires
            old(self)@.valid(),
            old(order)@.valid(),
        ensures
            trade == trade_between(old(self)@, old(order)@),
            trade is Some <==> old(self)@.limit_price <= old(order)@.limit_price,
            final(self)@ == old(self)@.after_trade(old(order)@),
            final(order)@ == old(order)@.after_trade(old(self)@),
            final(self)@.valid(),
            final(order)@.valid(),
    {
        proof {
            use_type_invariant(&*self);
            use_type_invariant(&*order);
        }
        let mut taker = self.0;
        let mut maker = order.0;
        let trade = taker.trade(&mut maker);
        *self = AskOrder(taker);
        *order = BidOrder(maker);
        trade
    }

    /// Cancels the order: `Open` becomes `Cancelled`, `Partial` becomes
    /// `Closed`, and a closed order stays as it is.
    pub fn cancel(&mut self)
        ensures
            final(self)@ == old(self)@.cancelled(),
            final(self)@.is_closed(),
    {
        proof {
            use_type_invariant(&*self);
        }
        let mut order = self.0;
        order.cancel();
        *self = AskOrder(order);
    }
}

impl BidOrder {
    #[verifier::type_invariant]
    spec fn on_bid_side(self) -> bool {
        self.0@.side == OrderSide::Bid
    }

    /// The order as an order of either side.
    pub closed spec fn order(self) -> Order {
        self.0
    }

    /// The identifier the client gave the order.
    pub fn id(&self) -> (id: OrderId)
        ensures
            id == self@.id,
    {
        self.0.id()
    }

    /// The side of the book the order stands on, which is the bid side.
    pub fn side(&self) -> (side: OrderSide)
        ensures
            side == self@.side,
            side == OrderSide::Bid,
    {
        proof {
            use_type_invariant(self);
        }
        self.0.side()
    }

    /// The limit price, in minor units.
    pub fn limit_price(&self) -> (price: u64)
        ensures
            price == self@.limit_price,
    {
        self.0.limit_price()
    }

    /// The quantity still to be matched.
    pub fn remaining(&self) -> (remaining: u64)
        requires
            self@.filled <= self@.amount,
        ensures
            remaining == self@.remaining(),
    {
        self.0.remaining()
    }

    /// The current status.
    pub fn status(&self) -> (status: OrderStatus)
        ensures
            status == self@.status,
    {
        self.0.status()
    }

    /// Whether the order has left the book for good.
    pub fn is_closed(&self) -> (closed: bool)
        ensures
            closed == self@.is_closed(),
    {
        self.0.is_closed()
    }

    /// Matches this bid, as taker, against the ask `order`, as maker. The
    /// two trade exactly when the bid's limit price is no lower than the
    /// ask's.
    pub fn trade(&mut self, order: &mut AskOrder) -> (trade: Option<Trade>)
        requires
            old(self)@.valid(),
            old(order)@.valid(),
        ensures
            trade == trade_between(old(self)@, old(order)@),
            trade is Some <==> old(self)@.limit_price >= old(order)@.limit_price,
            final(self)@ == old(self)@.after_trade(old(order)@),
            final(order)@ == old(order)@.after_trade(old(self)@),
            final(self)@.valid(),
            final(order)@.valid(),
    {
        proof {
            use_type_invariant(&*self);
            use_type_invariant(&*order);
        }
        let mut taker = self.0;
        let mut maker = order.0;
        let trade = taker.trade(&mut maker);
        *self = BidOrder(taker);
        *order = AskOrder(maker);
        trade
    }

    /// Cancels the order: `Open` becomes `Cancelled`, `Partial` becomes
    /// `Closed`, and a closed order stays as it is.
    pub fn cancel(&mut self)
        ensures
            final(self)@ == old(self)@.cancelled(),
            final(self)@.is_closed(),
    {
        proof {
            use_type_invariant(&*self);
        }
        let mut order = self.0;
        order.cancel();
        *self = BidOrder(order);
    }
}

impl TryFrom<Order> for AskOrder {
    type Error = OrderError;

    /// The order as an ask, or `MismatchSide` if it is a bid.
    fn try_from(order: Order) -> (ask: Result<AskOrder, OrderError>) {
        if order.side() == OrderSide::Ask {
            Ok(AskOrder(order))
        } else {
            Err(OrderError::MismatchSide)
        }
    }
}

impl TryFromSpecImpl<Order> for AskOrder {
    open spec fn obeys_try_from_spec() -> bool {
        true
    }

    open spec fn try_from_spec(order: Order) -> Result<AskOrder, OrderError> {
        if order@.side == OrderSide::Ask {
            Ok(ask_of(order))
        } else {
            Err(OrderError::MismatchSide)
        }
    }
}

impl TryFrom<Order> for BidOrder {
    type Error = OrderError;

    /// The order as a bid, or `MismatchSide` if it is an ask.
    fn try_from(order: Order) -> (bid: Result<BidOrder, OrderError>) {
        if order.side() == OrderSide::Bid {
            Ok(BidOrder(order))
        } else {
            Err(OrderError::MismatchSide)
        }
    }
}

impl TryFromSpecImpl<Order> for BidOrder {
    open spec fn obeys_try_from_spec() -> bool {
        true
    }

    open spec fn try_from_spec(order: Order) -> Result<BidOrder, OrderError> {
        if order@.side == OrderSide::Bid {
            Ok(bid_of(order))
        } else {
            Err(OrderError::MismatchSide)
        }
    }
}

/// The ask that wraps `order`.
pub closed spec fn ask_of(order: Order) -> AskOrder {
    AskOrder(order)
}

/// The bid that wraps `order`.
pub closed spec fn bid_of(order: Order) -> BidOrder {
    BidOrder(order)
}

/// An ask is the order it wraps.
pub proof fn lemma_ask_of(order: Order)
    ensures
        ask_of(order)@ == order@,
        ask_of(order).order() == order,
{
}

/// A bid is the order it wraps.
pub proof fn lemma_bid_of(order: Order)
    ensures
        bid_of(order)@ == order@,
        bid_of(order).order() == order,
{
}

impl From<AskOrder> for Order {
    /// The ask as an order of either side.
    fn from(order: AskOrder) -> (plain: Order) {
        order.0
    }
}

impl FromSpecImpl<AskOrder> for Order {
    open spec fn obeys_from_spec() -> bool {
        true
    }

    open spec fn from_spec(order: AskOrder) -> Order {
        order.order()
    }
}

impl From<BidOrder> for Order {
    /// The bid as an order of either side.
    fn from(order: BidOrder) -> (plain: Order) {
        order.0
    }
}

impl FromSpecImpl<BidOrder> for Order {
    open spec fn obeys_from_spec() -> bool {
        true
    }

    open spec fn from_spec(order: BidOrder) -> Order {
        order.order()
    }
}

impl Deref for AskOrder {
    type Target = Order;

    /// The ask as an order of either side.
    fn deref(&self) -> (order: &Order)
        ensures
            *order == self.order(),
    {
        &self.0
    }
}

impl Deref for BidOrder {
    type Target = Order;

    /// The bid as an order of either side.
    fn deref(&self) -> (order: &Order)
        ensures
            *order == self.order(),
    {
        &self.0
    }
}

} // verus!
