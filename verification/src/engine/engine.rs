//! The engine: one book, changed by one request at a time.
use super::book::{admissible, BookView};
use super::event::Event;
use super::laws::lemma_step_uncrossed;
use super::order::Order;
use super::order_request::OrderRequest;
use super::orderbook::Orderbook;
use vstd::prelude::*;

verus! {

/// The matching engine of one trading pair: a book, and the one way to
/// change it.
pub struct Engine {
    orderbook: Orderbook,
}

impl View for Engine {
    type V = BookView;

    /// The resting orders of the engine's book.
    open spec fn view(&self) -> BookView {
        self.spec_orderbook()@
    }
}

impl Engine {
    /// The engine's book.
    pub closed spec fn spec_orderbook(&self) -> &Orderbook {
        &self.orderbook
    }

    /// The engine is well formed: its book is, and the book is not crossed.
    pub open spec fn wf(&self) -> bool {
        self.spec_orderbook().wf() && !self@.crossed()
    }

    /// An engine with an empty book for the pair called `pair`.
    pub fn new(pair: &str) -> (engine: Engine)
        ensures
            engine.wf(),
            engine@ == BookView::empty(),
            engine.spec_orderbook().pair() == pair@,
    {
        Engine { orderbook: Orderbook::new(pair) }
    }

    /// The engine's book, to look at.
    #[verifier::when_used_as_spec(spec_orderbook)]
    pub fn orderbook(&self) -> (book: &Orderbook)
        ensures
            book == self.spec_orderbook(),
    {
        &self.orderbook
    }

    /// Whether `request` may be processed: its fields can be read and, if it
    /// asks for a new order, no order with that identifier rests.
    pub fn accepts(&self, request: &OrderRequest) -> (accepted: bool)
        requires
            self.wf(),
        ensures
            accepted == (request.command() is Some && admissible(self@, request.command()->0)),
    {
        if !request.is_well_formed() {
            return false;
        }
        match request {
            OrderRequest::Create { .. } => {
                let id = request.order_id().unwrap();
                !self.orderbook.contains(&id)
            },
            OrderRequest::Delete { .. } => true,
        }
    }

    /// Processes one request and returns its events in the order in which
    /// they were emitted.
    ///
    /// A request to create an order matches the order against the book and
    /// puts to rest what is left of it: one `Traded` per trade, then `Added`
    /// if the order rests. A request to delete an order cancels it and
    /// gives `Removed`; if no such order rests there is no event and the book
    /// stays as it was. Afterwards the book is well formed again and not
    /// crossed.
    pub fn process(&mut self, incoming_order: OrderRequest) -> (events: Vec<Event>)
        requires
            old(self).wf(),
            incoming_order.command() is Some,
            admissible(old(self)@, incoming_order.command()->0),
        ensures
            final(self).wf(),
            final(self)@ == old(self)@.step(incoming_order.command()->0).book,
            events@ == old(self)@.step(incoming_order.command()->0).events,
            final(self).spec_orderbook().pair() == old(self).spec_orderbook().pair(),
            final(self).spec_orderbook().no_dangling_levels(),
            final(self).spec_orderbook().index_coherent(),
            final(self)@.valid(),
            !final(self)@.crossed(),
    {
        proof {
            self.orderbook.lemma_view_valid();
            lemma_step_uncrossed(self@, incoming_order.command()->0);
        }
        let events = match incoming_order {
            OrderRequest::Create { .. } => {
                let order = Order::try_from(incoming_order).unwrap();
                self.orderbook.matching(order)
            },
            OrderRequest::Delete { .. } => {
                let id = incoming_order.order_id().unwrap();
                match self.orderbook.remove(&id) {
                    Some(order) => vec![Event::removed(order.id())],
                    None => vec![],
                }
            },
        };
        proof {
            self.orderbook.lemma_view_valid();
            self.orderbook.lemma_no_dangling_levels();
        }
        events
    }
}

} // verus!
