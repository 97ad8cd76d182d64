//! Orders: their terms, their fill, their life cycle, and the trade of two
//! of them.
use super::order_id::OrderId;
use super::order_status::OrderStatus;
use super::trade::Trade;
use crate::order_side::OrderSide;
use vstd::prelude::*;

verus! {

/// What an order is, as contracts see it: its identity, its terms and how far
/// it has been filled.
pub struct OrderView {
    pub id: OrderId,
    pub account_id: u64,
    pub side: OrderSide,
    pub limit_price: u64,
    pub amount: u64,
    pub filled: u64,
    pub status: OrderStatus,
}

impl OrderView {
    /// The quantity still to be matched.
    pub open spec fn remaining(self) -> int {
        self.amount - self.filled
    }

    /// The order has left the book for good.
    pub open spec fn is_closed(self) -> bool {
        self.status.is_terminal()
    }

    /// The order is well formed: a positive amount, no more filled than
    /// that, and a status that agrees with the fill.
    pub open spec fn valid(self) -> bool {
        &&& self.amount > 0
        &&& self.filled <= self.amount
        &&& match self.status {
            OrderStatus::Open | OrderStatus::Cancelled => self.filled == 0,
            OrderStatus::Partial | OrderStatus::Closed => 0 < self.filled < self.amount,
            OrderStatus::Completed => self.filled == self.amount,
        }
    }

    /// The order may rest in a book: it is well formed and still open.
    pub open spec fn is_live(self) -> bool {
        self.valid() && !self.is_closed()
    }

    /// The order after `quantity` more has been matched.
    pub open spec fn filled_by(self, quantity: int) -> OrderView {
        let filled = (self.filled + quantity) as u64;
        OrderView {
            filled,
            status: if filled == self.amount {
                OrderStatus::Completed
            } else if filled > 0 {
                OrderStatus::Partial
            } else {
                self.status
            },
            ..self
        }
    }

    /// The order after a cancellation.
    pub open spec fn cancelled(self) -> OrderView {
        OrderView {
            status: match self.status {
                OrderStatus::Open => OrderStatus::Cancelled,
                OrderStatus::Partial => OrderStatus::Closed,
                other => other,
            },
            ..self
        }
    }

    /// `later` is a later state of this order: the same identity and terms,
    /// no less filled, and a status that the order life cycle leads to.
    pub open spec fn evolves_to(self, later: OrderView) -> bool {
        &&& later.id == self.id
        &&& later.account_id == self.account_id
        &&& later.side == self.side
        &&& later.limit_price == self.limit_price
        &&& later.amount == self.amount
        &&& self.filled <= later.filled
        &&& self.status.reaches(later.status)
    }

    /// The order after it has met `other`: filled by what the two exchange
    /// if they cross, unchanged if they do not.
    pub open spec fn after_trade(self, other: OrderView) -> OrderView {
        if crosses(self, other) {
            self.filled_by(exchanged(self, other))
        } else {
            self
        }
    }
}

/// Two orders cross when they stand on opposite sides and the ask's limit
/// price is no higher than the bid's.
pub open spec fn crosses(taker: OrderView, maker: OrderView) -> bool {
    match (taker.side, maker.side) {
        (OrderSide::Ask, OrderSide::Bid) => taker.limit_price <= maker.limit_price,
        (OrderSide::Bid, OrderSide::Ask) => taker.limit_price >= maker.limit_price,
        _ => false,
    }
}

/// The quantity two crossing orders exchange: the smaller of what remains
/// of each.
pub open spec fn exchanged(taker: OrderView, maker: OrderView) -> int {
    if taker.remaining() <= maker.remaining() {
        taker.remaining()
    } else {
        maker.remaining()
    }
}

/// The trade two orders make when the first takes from the second: none
/// unless they cross, else the exchanged quantity at the maker's price.
pub open spec fn trade_between(taker: OrderView, maker: OrderView) -> Option<Trade> {
    if crosses(taker, maker) {
        Some(
            Trade {
                taker: taker.id,
                maker: maker.id,
                amount: exchanged(taker, maker) as u64,
                price: maker.limit_price,
            },
        )
    } else {
        None
    }
}

/// A trade between two live orders that cross exchanges a positive quantity,
/// leaves both well formed, moves each along the order life cycle, and
/// completes at least one of them.
pub proof fn lemma_trade_of_live(taker: OrderView, maker: OrderView)
    requires
        taker.is_live(),
        maker.is_live(),
        crosses(taker, maker),
    ensures
        0 < exchanged(taker, maker) <= u64::MAX,
        trade_between(taker, maker) is Some,
        trade_between(taker, maker)->0.amount == exchanged(taker, maker),
        taker.after_trade(maker).valid(),
        maker.after_trade(taker).valid(),
        taker.evolves_to(taker.after_trade(maker)),
        maker.evolves_to(maker.after_trade(taker)),
        taker.after_trade(maker).filled == taker.filled + exchanged(taker, maker),
        maker.after_trade(taker).filled == maker.filled + exchanged(taker, maker),
        taker.after_trade(maker).is_closed() || maker.after_trade(taker).is_closed(),
        taker.after_trade(maker).is_closed() <==> taker.after_trade(maker).status
            == OrderStatus::Completed,
        maker.after_trade(taker).is_closed() <==> maker.after_trade(taker).status
            == OrderStatus::Completed,
{
}

/// Monotonic fill: a trade never lowers the fill of an open order and moves
/// its status by at most one step of the order life cycle, and so does a
/// cancellation, which leaves the fill as it is.
pub proof fn lemma_life_cycle(order: OrderView, other: OrderView)
    requires
        order.is_live(),
        other.valid(),
    ensures
        order.filled <= order.after_trade(other).filled <= order.amount,
        order.after_trade(other).status == order.status || order.status.steps_to(
            order.after_trade(other).status,
        ),
        order.evolves_to(order.after_trade(other)),
        order.cancelled().filled == order.filled,
        order.status.steps_to(order.cancelled().status),
        order.evolves_to(order.cancelled()),
{
}

/// Why an order could not be seen as an order of one given side.
#[derive(Clone, Copy, Debug, PartialEq, Eq, Structural)]
pub enum OrderError {
    /// The order stands on the other side.
    MismatchSide,
}

impl OrderError {
    /// The error in words.
    pub fn message(&self) -> (text: &'static str)
        ensures
            text@ == "sides mismatch"@,
    {
        match self {
            OrderError::MismatchSide => "sides mismatch",
        }
    }
}

/// A limit order: fixed identity and terms, and a fill that only grows.
#[derive(Clone, Copy, Debug)]
pub struct Order {
    id: OrderId,
    account_id: u64,
    side: OrderSide,
    limit_price: u64,
    amount: u64,
    filled: u64,
    status: OrderStatus,
}

impl View for Order {
    type V = OrderView;

    closed spec fn view(&self) -> OrderView {
        OrderView {
            id: self.id,
            account_id: self.account_id,
            side: self.side,
            limit_price: self.limit_price,
            amount: self.amount,
            filled: self.filled,
            status: self.status,
        }
    }
}

impl Order {
    /// A fresh order: nothing filled, status `Open`.
    pub fn new(id: OrderId, account_id: u64, side: OrderSide, limit_price: u64, amount: u64) -> (order:
        Order)
        requires
            amount > 0,
        ensures
            order@ == (OrderView {
                id,
                account_id,
                side,
                limit_price,
                amount,
                filled: 0,
                status: OrderStatus::Open,
            }),
            order@.is_live(),
    {
        Order { id, account_id, side, limit_price, amount, filled: 0, status: OrderStatus::Open }
    }

    /// The identifier the client gave the order.
    pub fn id(&self) -> (id: OrderId)
        ensures
            id == self@.id,
    {
        self.id
    }

    /// The account the order belongs to.
    pub fn account_id(&self) -> (account_id: u64)
        ensures
            account_id == self@.account_id,
    {
        self.account_id
    }

    /// The current status.
    pub fn status(&self) -> (status: OrderStatus)
        ensures
            status == self@.status,
    {
        self.status
    }

    /// The side of the book the order stands on.
    pub fn side(&self) -> (side: OrderSide)
        ensures
            side == self@.side,
    {
        self.side
    }

    /// The limit price, in minor units.
    pub fn limit_price(&self) -> (price: u64)
        ensures
            price == self@.limit_price,
    {
        self.limit_price
    }

    /// The quantity the order was created with.
    pub fn amount(&self) -> (amount: u64)
        ensures
            amount == self@.amount,
    {
        self.amount
    }

    /// The quantity matched so far.
    pub fn filled(&self) -> (filled: u64)
        ensures
            filled == self@.filled,
    {
        self.filled
    }

    /// The quantity still to be matched.
    pub fn remaining(&self) -> (remaining: u64)
        requires
            self@.filled <= self@.amount,
        ensures
            remaining == self@.remaining(),
    {
        self.amount - self.filled
    }

    /// Whether the order has left the book for good.
    pub fn is_closed(&self) -> (closed: bool)
        ensures
            closed == self@.is_closed(),
    {
        match self.status {
            OrderStatus::Cancelled | OrderStatus::Closed | OrderStatus::Completed => true,
            _ => false,
        }
    }

    fn matches_with(taker: &Order, maker: &Order) -> (matches: bool)
        ensures
            matches == crosses(taker@, maker@),
    {
        match (taker.side, maker.side) {
            (OrderSide::Ask, OrderSide::Bid) => taker.limit_price <= maker.limit_price,
            (OrderSide::Bid, OrderSide::Ask) => taker.limit_price >= maker.limit_price,
            _ => false,
        }
    }

    fn subtract_amount(&mut self, quantity: u64)
        requires
            old(self)@.valid(),
            quantity <= old(self)@.remaining(),
        ensures
            final(self)@ == old(self)@.filled_by(quantity as int),
            final(self)@.valid(),
    {
        self.filled = self.filled + quantity;
        if self.filled == self.amount {
            self.status = OrderStatus::Completed;
        } else if self.filled > 0 {
            self.status = OrderStatus::Partial;
        }
    }

    /// Matches this order, as taker, against `other`, as maker.
    ///
    /// The two trade exactly when they cross. They then exchange the
    /// smaller of their remaining quantities at the maker's limit price, and
    /// each is filled by that much. When they do not cross, neither changes.
    pub fn trade(&mut self, other: &mut Order) -> (trade: Option<Trade>)
        requires
            old(self)@.valid(),
            old(other)@.valid(),
        ensures
            trade == trade_between(old(self)@, old(other)@),
            final(self)@ == old(self)@.after_trade(old(other)@),
            final(other)@ == old(other)@.after_trade(old(self)@),
            final(self)@.valid(),
            final(other)@.valid(),
            !old(self)@.is_closed() ==> old(self)@.evolves_to(final(self)@),
            !old(other)@.is_closed() ==> old(other)@.evolves_to(final(other)@),
    {
        if !Self::matches_with(self, other) {
            return None;
        }
        let taker_left = self.remaining();
        let maker_left = other.remaining();
        let quantity = if taker_left <= maker_left {
            taker_left
        } else {
            maker_left
        };
        let price = other.limit_price;
        self.subtract_amount(quantity);
        other.subtract_amount(quantity);
        Some(Trade { taker: self.id, maker: other.id, amount: quantity, price })
    }

    /// Cancels the order: `Open` becomes `Cancelled`, `Partial` becomes
    /// `Closed`, and a closed order stays as it is.
    pub fn cancel(&mut self)
        ensures
            final(self)@ == old(self)@.cancelled(),
            old(self)@.valid() ==> final(self)@.valid(),
            old(self)@.evolves_to(final(self)@),
            final(self)@.is_closed(),
    {
        match self.status {
            OrderStatus::Open => {
                self.status = OrderStatus::Cancelled;
            },
            OrderStatus::Partial => {
                self.status = OrderStatus::Closed;
            },
            _ => {},
        }
    }
}

} // verus!
