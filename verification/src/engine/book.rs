//! The book as contracts see it: the resting orders of each side in matching
//! order, and what matching and cancelling do to them.
use super::event::Event;
use super::ladder::better;
use super::order::{crosses, trade_between, OrderView};
use super::order_id::OrderId;
use super::trade::Trade;
use crate::order_side::OrderSide;
use vstd::prelude::*;

verus! {

/// Some order of `queue` has the identifier `id`.
pub open spec fn has_id(queue: Seq<OrderView>, id: OrderId) -> bool {
    exists|k: int| 0 <= k < queue.len() && (#[trigger] queue[k]).id == id
}

/// The place in `queue` of an order with the identifier `id`, if there is one.
pub open spec fn place_of(queue: Seq<OrderView>, id: OrderId) -> int {
    choose|k: int| 0 <= k < queue.len() && (#[trigger] queue[k]).id == id
}

/// `queue` without the order that has the identifier `id`.
pub open spec fn without(queue: Seq<OrderView>, id: OrderId) -> Seq<OrderView> {
    if has_id(queue, id) {
        queue.remove(place_of(queue, id))
    } else {
        queue
    }
}

/// No two orders of `queue` have the same identifier.
#[verifier::opaque]
pub open spec fn unique_ids(queue: Seq<OrderView>) -> bool {
    forall|m: int, n: int|
        #![trigger queue[m], queue[n]]
        0 <= m < n < queue.len() ==> queue[m].id != queue[n].id
}

/// No order of `these` has the identifier of an order of `those`.
#[verifier::opaque]
pub open spec fn disjoint_ids(these: Seq<OrderView>, those: Seq<OrderView>) -> bool {
    forall|m: int, n: int|
        #![trigger these[m], those[n]]
        0 <= m < these.len() && 0 <= n < those.len() ==> these[m].id != those[n].id
}

/// How many leading orders of `queue` keep their place before `order`: those
/// whose price `order` does not strictly improve on.
pub open spec fn priority_rank(queue: Seq<OrderView>, order: OrderView) -> int
    decreases queue.len(),
{
    if queue.len() == 0 || better(order.side, order.limit_price, queue[0].limit_price) {
        0
    } else {
        1 + priority_rank(queue.drop_first(), order)
    }
}

/// `queue` with `order` put in by price-time priority: behind every order
/// with a price at least as good, before every order with a worse one.
pub open spec fn enqueue(queue: Seq<OrderView>, order: OrderView) -> Seq<OrderView> {
    queue.insert(priority_rank(queue, order), order)
}

/// The orders of one side in matching order are all live orders of that
/// side, and none has a strictly better price than one before it.
#[verifier::opaque]
pub open spec fn queue_valid(queue: Seq<OrderView>, side: OrderSide) -> bool {
    &&& forall|n: int| 0 <= n < queue.len() ==> (#[trigger] queue[n]).side == side && queue[n].is_live()
    &&& forall|m: int, n: int|
        #![trigger queue[m], queue[n]]
        0 <= m < n < queue.len() ==> !better(side, queue[n].limit_price, queue[m].limit_price)
}

/// The events of a sequence of trades, in the same order.
pub open spec fn trade_events(trades: Seq<Trade>) -> Seq<Event> {
    Seq::new(trades.len(), |i: int| Event::Traded(trades[i]))
}

/// What a taker leaves behind after it has swept the other side of the book.
pub struct Sweep {
    /// The taker after its trades.
    pub taker: OrderView,
    /// The other side's orders after the trades, in matching order.
    pub makers: Seq<OrderView>,
    /// The trades, in the order in which they were made.
    pub trades: Seq<Trade>,
}

/// Matches `taker` against `makers`, best first, until the taker is closed,
/// no maker is left, the best maker no longer crosses, or a maker outlasts
/// its trade. A maker that its trade closes leaves the queue; one that is
/// only partly filled stays at the front.
pub open spec fn sweep(taker: OrderView, makers: Seq<OrderView>) -> Sweep
    decreases makers.len(),
{
    if taker.is_closed() || makers.len() == 0 || !crosses(taker, makers[0]) {
        Sweep { taker, makers, trades: Seq::empty() }
    } else {
        let trade = trade_between(taker, makers[0])->0;
        let taker_after = taker.after_trade(makers[0]);
        let maker_after = makers[0].after_trade(taker);
        if maker_after.is_closed() {
            let rest = sweep(taker_after, makers.drop_first());
            Sweep { taker: rest.taker, makers: rest.makers, trades: seq![trade] + rest.trades }
        } else {
            Sweep { taker: taker_after, makers: makers.update(0, maker_after), trades: seq![trade] }
        }
    }
}

/// The resting orders of a book, each side in matching order: best price
/// first, and among equal prices the earlier arrival first.
pub struct BookView {
    pub asks: Seq<OrderView>,
    pub bids: Seq<OrderView>,
}

impl BookView {
    /// The book in which nothing rests.
    pub open spec fn empty() -> BookView {
        BookView { asks: Seq::empty(), bids: Seq::empty() }
    }

    /// The orders resting on `side`.
    pub open spec fn queue(self, side: OrderSide) -> Seq<OrderView> {
        match side {
            OrderSide::Ask => self.asks,
            OrderSide::Bid => self.bids,
        }
    }

    /// The book with the orders of `side` replaced by `queue`.
    pub open spec fn with_queue(self, side: OrderSide, queue: Seq<OrderView>) -> BookView {
        match side {
            OrderSide::Ask => BookView { asks: queue, ..self },
            OrderSide::Bid => BookView { bids: queue, ..self },
        }
    }

    /// An order with the identifier `id` rests in the book.
    pub open spec fn contains(self, id: OrderId) -> bool {
        has_id(self.asks, id) || has_id(self.bids, id)
    }

    /// The resting order with the identifier `id`, if there is one.
    pub open spec fn order(self, id: OrderId) -> OrderView {
        if has_id(self.asks, id) {
            self.asks[place_of(self.asks, id)]
        } else {
            self.bids[place_of(self.bids, id)]
        }
    }

    /// The number of resting orders.
    pub open spec fn population(self) -> nat {
        self.asks.len() + self.bids.len()
    }

    /// No identifier rests twice, on one side or across the two.
    pub open spec fn ids_unique(self) -> bool {
        unique_ids(self.asks) && unique_ids(self.bids) && disjoint_ids(self.asks, self.bids)
    }

    /// Every resting order is live and on its side, each side stands in
    /// price order, and no identifier rests twice.
    pub open spec fn valid(self) -> bool {
        &&& queue_valid(self.asks, OrderSide::Ask)
        &&& queue_valid(self.bids, OrderSide::Bid)
        &&& self.ids_unique()
    }

    /// The best ask could trade with the best bid.
    pub open spec fn crossed(self) -> bool {
        self.asks.len() > 0 && self.bids.len() > 0 && self.asks[0].limit_price
            <= self.bids[0].limit_price
    }

    /// The book after `order` has been put to rest on its side.
    pub open spec fn rest(self, order: OrderView) -> BookView {
        self.with_queue(order.side, enqueue(self.queue(order.side), order))
    }

    /// The book after the order with the identifier `id` has been taken out.
    pub open spec fn cancel(self, id: OrderId) -> BookView {
        BookView { asks: without(self.asks, id), bids: without(self.bids, id) }
    }

    /// The book after the first order of `side` has been taken out.
    pub open spec fn pop(self, side: OrderSide) -> BookView {
        if self.queue(side).len() > 0 {
            self.with_queue(side, self.queue(side).drop_first())
        } else {
            self
        }
    }

    /// The book after `order` has been matched against the other side and,
    /// if it is still open then, put to rest.
    pub open spec fn matched(self, order: OrderView) -> BookView {
        let swept = sweep(order, self.queue(order.side.spec_opposite()));
        let book = self.with_queue(order.side.spec_opposite(), swept.makers);
        if swept.taker.is_closed() {
            book
        } else {
            book.rest(swept.taker)
        }
    }

    /// The events of matching `order`: one per trade, in order, and then
    /// one for the order's entry into the book if it is still open.
    pub open spec fn match_events(self, order: OrderView) -> Seq<Event> {
        let swept = sweep(order, self.queue(order.side.spec_opposite()));
        let traded = trade_events(swept.trades);
        if swept.taker.is_closed() {
            traded
        } else {
            traded.push(Event::Added(order.id))
        }
    }
}

/// A request as the engine understands it once its fields are read.
pub enum Command {
    /// Match a new order and put to rest what is left of it.
    Create(OrderView),
    /// Cancel the order with this identifier.
    Delete(OrderId),
}

/// What processing one command gives: the book afterwards and the events, in
/// the order in which they were emitted.
pub struct Outcome {
    pub book: BookView,
    pub events: Seq<Event>,
}

impl BookView {
    /// The outcome of one command. A new order is matched and then rests if
    /// it is still open. A cancellation takes the order out and reports it
    /// removed; where no such order rests, nothing changes and nothing is
    /// reported.
    pub open spec fn step(self, command: Command) -> Outcome {
        match command {
            Command::Create(order) => Outcome {
                book: self.matched(order),
                events: self.match_events(order),
            },
            Command::Delete(id) => Outcome {
                book: self.cancel(id),
                events: if self.contains(id) {
                    seq![Event::Removed(id)]
                } else {
                    Seq::empty()
                },
            },
        }
    }
}

/// A command may be processed on a book: an order to create is well formed
/// and no order with its identifier rests. Any cancellation may.
pub open spec fn admissible(book: BookView, command: Command) -> bool {
    match command {
        Command::Create(order) => order.valid() && !book.contains(order.id),
        Command::Delete(_) => true,
    }
}

} // verus!
