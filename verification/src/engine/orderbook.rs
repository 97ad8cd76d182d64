//! The order book: ladders of price levels over an index of orders, with
//! the matcher.
use super::book::{
    disjoint_ids, enqueue, has_id, place_of, priority_rank, queue_valid, sweep, trade_events,
    unique_ids, without, BookView,
};
use super::event::Event;
use super::index::{
    counts, index_get, index_get_mut, index_insert, index_len, index_new, index_swap_remove, stored,
};
use super::ladder::{
    better, entries_of, ladder_wf, lemma_entries_sorted, lemma_rank_bounds, rank, Entry, Ladder,
    LevelView,
};
use super::order::{Order, OrderView};
use super::trade::Trade;
use super::order_id::OrderId;
use crate::order_side::OrderSide;
use indexmap::IndexMap;
use vstd::prelude::*;

verus! {

/// The orders that `entries` name, looked up in `index`, in the same order.
pub open spec fn orders_of(entries: Seq<Entry>, index: Map<OrderId, OrderView>) -> Seq<OrderView> {
    Seq::new(entries.len(), |n: int| index[entries[n].id])
}

/// Some entry of `entries` names `id`.
pub open spec fn queued(entries: Seq<Entry>, id: OrderId) -> bool {
    exists|n: int| 0 <= n < entries.len() && (#[trigger] entries[n]).id == id
}

/// Looking the orders up commutes with dropping the first entry.
proof fn lemma_orders_of_tail(entries: Seq<Entry>, index: Map<OrderId, OrderView>)
    requires
        entries.len() > 0,
    ensures
        orders_of(entries.drop_first(), index) == orders_of(entries, index).drop_first(),
{
    assert(orders_of(entries.drop_first(), index) =~= orders_of(entries, index).drop_first());
}

/// Where every entry carries the limit price of its order, an order has the
/// same rank among the entries as among the orders.
proof fn lemma_rank_agrees(
    entries: Seq<Entry>,
    index: Map<OrderId, OrderView>,
    order: OrderView,
)
    requires
        forall|n: int|
            0 <= n < entries.len() ==> index[(#[trigger] entries[n]).id].limit_price
                == entries[n].price,
    ensures
        priority_rank(orders_of(entries, index), order) == rank(
            entries,
            order.side,
            order.limit_price,
        ),
    decreases entries.len(),
{
    if entries.len() > 0 {
        let rest = entries.drop_first();
        assert forall|n: int| 0 <= n < rest.len() implies index[(#[trigger] rest[n]).id].limit_price
            == rest[n].price by {
            assert(rest[n] == entries[n + 1]);
        }
        lemma_rank_agrees(rest, index, order);
        lemma_orders_of_tail(entries, index);
        assert(orders_of(entries, index)[0] == index[entries[0].id]);
    }
}

/// An identifier is queued among the entries exactly when an order with
/// that identifier is among the orders they name, provided each entry names
/// an order of its own identifier.
proof fn lemma_queued_has_id(entries: Seq<Entry>, index: Map<OrderId, OrderView>, id: OrderId)
    requires
        forall|n: int| 0 <= n < entries.len() ==> index[(#[trigger] entries[n]).id].id == entries[n].id,
    ensures
        queued(entries, id) <==> has_id(orders_of(entries, index), id),
{
    let orders = orders_of(entries, index);
    if queued(entries, id) {
        let n = choose|n: int| 0 <= n < entries.len() && (#[trigger] entries[n]).id == id;
        assert(orders[n].id == id);
    }
    if has_id(orders, id) {
        let n = choose|n: int| 0 <= n < orders.len() && (#[trigger] orders[n]).id == id;
        assert(entries[n].id == id);
    }
}

/// The order book of one trading pair.
///
/// The orders are kept by identifier in an index; each side has a ladder of
/// price levels, best first, and each level queues the identifiers of its
/// orders in the order in which they arrived.
pub struct Orderbook {
    #[allow(dead_code)]
    pair: String,
    orders: IndexMap<u64, Order>,
    ask: Ladder,
    bid: Ladder,
}

impl View for Orderbook {
    type V = BookView;

    /// The resting orders of both sides, each in matching order.
    open spec fn view(&self) -> BookView {
        BookView { asks: self.resting(OrderSide::Ask), bids: self.resting(OrderSide::Bid) }
    }
}

impl Orderbook {
    /// The name of the trading pair.
    pub closed spec fn pair(&self) -> Seq<char> {
        self.pair@
    }

    /// The price levels of `side`, best first.
    pub closed spec fn levels(&self, side: OrderSide) -> Seq<LevelView> {
        match side {
            OrderSide::Ask => self.ask@,
            OrderSide::Bid => self.bid@,
        }
    }

    /// The orders kept in the book, by identifier.
    pub closed spec fn index(&self) -> Map<OrderId, OrderView> {
        Map::new(
            |id: OrderId| stored(self.orders).contains_key(id.0),
            |id: OrderId| stored(self.orders)[id.0]@,
        )
    }

    /// The queued identifiers of `side` with their prices, in matching order.
    pub open spec fn entries(&self, side: OrderSide) -> Seq<Entry> {
        entries_of(self.levels(side))
    }

    /// The orders resting on `side`, in matching order.
    pub open spec fn resting(&self, side: OrderSide) -> Seq<OrderView> {
        orders_of(self.entries(side), self.index())
    }

    /// Every price level of either ladder queues at least one identifier.
    pub open spec fn no_dangling_levels(&self) -> bool {
        forall|side: OrderSide, i: int|
            0 <= i < self.levels(side).len() ==> (#[trigger] self.levels(side)[i]).ids.len() > 0
    }

    /// The index holds exactly the identifiers queued in the two ladders.
    pub open spec fn index_coherent(&self) -> bool {
        forall|id: OrderId|
            #[trigger] self.index().contains_key(id) <==> queued(self.entries(OrderSide::Ask), id)
                || queued(self.entries(OrderSide::Bid), id)
    }

    /// The ladder of `side` is in price order without empty levels, no
    /// identifier is queued twice in it, and each queued identifier is that of
    /// an indexed order of this side at the price of its level.
    pub open spec fn side_structured(&self, side: OrderSide) -> bool {
        &&& ladder_wf(self.levels(side), side)
        &&& forall|n: int|
            0 <= n < self.entries(side).len() ==> {
                let entry = #[trigger] self.entries(side)[n];
                &&& self.index().contains_key(entry.id)
                &&& self.index()[entry.id].id == entry.id
                &&& self.index()[entry.id].side == side
                &&& self.index()[entry.id].limit_price == entry.price
            }
        &&& forall|m: int, n: int|
            #![trigger self.entries(side)[m], self.entries(side)[n]]
            0 <= m < n < self.entries(side).len() ==> self.entries(side)[m].id != self.entries(
                side,
            )[n].id
    }

    /// Ladders and index agree: both sides are structured and the index
    /// holds nothing that is not queued.
    pub open spec fn structured(&self) -> bool {
        &&& self.side_structured(OrderSide::Ask)
        &&& self.side_structured(OrderSide::Bid)
        &&& self.index_coherent()
    }

    /// Every resting order is live: well formed and neither filled in full
    /// nor cancelled.
    pub open spec fn all_live(&self) -> bool {
        forall|side: OrderSide, n: int|
            0 <= n < self.resting(side).len() ==> (#[trigger] self.resting(side)[n]).is_live()
    }

    /// The book is well formed: ladders and index agree, and every resting
    /// order is live.
    pub open spec fn wf(&self) -> bool {
        self.structured() && self.all_live()
    }

    /// In a structured book no level is empty.
    pub proof fn lemma_no_dangling_levels(&self)
        requires
            self.structured(),
        ensures
            self.no_dangling_levels(),
    {
        assert forall|side: OrderSide, i: int| 0 <= i < self.levels(side).len() implies (
        #[trigger] self.levels(side)[i]).ids.len() > 0 by {
            assert(self.side_structured(side));
        }
    }

    /// In a structured book each resting order is the indexed order of the
    /// entry at its place, and carries that entry's identifier and price.
    pub proof fn lemma_resting_in_place(&self, side: OrderSide)
        requires
            self.structured(),
        ensures
            self.resting(side).len() == self.entries(side).len(),
            forall|n: int|
                0 <= n < self.resting(side).len() ==> {
                    let order = #[trigger] self.resting(side)[n];
                    &&& order == self.index()[self.entries(side)[n].id]
                    &&& order.id == self.entries(side)[n].id
                    &&& order.side == side
                    &&& order.limit_price == self.entries(side)[n].price
                },
    {
        assert(self.side_structured(side));
        assert forall|n: int| 0 <= n < self.resting(side).len() implies {
            let order = #[trigger] self.resting(side)[n];
            &&& order == self.index()[self.entries(side)[n].id]
            &&& order.id == self.entries(side)[n].id
            &&& order.side == side
            &&& order.limit_price == self.entries(side)[n].price
        } by {
            let entry = self.entries(side)[n];
            assert(self.index().contains_key(entry.id));
        }
    }

    /// In a structured book an identifier is indexed exactly when an order
    /// with it rests, and the indexed order is the resting one.
    pub proof fn lemma_contains(&self, id: OrderId)
        requires
            self.structured(),
        ensures
            self.index().contains_key(id) <==> self@.contains(id),
            self@.contains(id) ==> self@.order(id) == self.index()[id],
            self@.contains(id) ==> (has_id(self@.queue(self.index()[id].side), id) && !has_id(
                self@.queue(self.index()[id].side.spec_opposite()),
                id,
            )),
    {
        self.lemma_resting_in_place(OrderSide::Ask);
        self.lemma_resting_in_place(OrderSide::Bid);
        lemma_queued_has_id(self.entries(OrderSide::Ask), self.index(), id);
        lemma_queued_has_id(self.entries(OrderSide::Bid), self.index(), id);
        assert(self.index().contains_key(id) <==> self@.contains(id));
        if has_id(self@.asks, id) {
            let n = place_of(self@.asks, id);
            assert(self@.asks[n].id == id);
            assert(self@.asks[n] == self.index()[id]);
            if has_id(self@.bids, id) {
                let m = place_of(self@.bids, id);
                assert(self@.bids[m].id == id);
                assert(self@.bids[m] == self.index()[id]);
            }
        } else if has_id(self@.bids, id) {
            let m = place_of(self@.bids, id);
            assert(self@.bids[m].id == id);
            assert(self@.bids[m] == self.index()[id]);
        }
    }

    /// What rests in a well-formed book is valid: each side holds live orders
    /// of that side in price order, and no identifier rests twice.
    pub proof fn lemma_view_valid(&self)
        requires
            self.wf(),
        ensures
            self@.valid(),
    {
        reveal(unique_ids);
        reveal(disjoint_ids);
        self.lemma_queue_valid(OrderSide::Ask);
        self.lemma_queue_valid(OrderSide::Bid);
        self.lemma_resting_in_place(OrderSide::Ask);
        self.lemma_resting_in_place(OrderSide::Bid);
        let asks = self.entries(OrderSide::Ask);
        let bids = self.entries(OrderSide::Bid);
        assert(self.side_structured(OrderSide::Ask) && self.side_structured(OrderSide::Bid));
        assert forall|m: int, n: int|
            #![trigger self@.asks[m], self@.asks[n]]
            0 <= m < n < self@.asks.len() implies self@.asks[m].id != self@.asks[n].id by {
            assert(asks[m].id != asks[n].id);
        }
        assert forall|m: int, n: int|
            #![trigger self@.bids[m], self@.bids[n]]
            0 <= m < n < self@.bids.len() implies self@.bids[m].id != self@.bids[n].id by {
            assert(bids[m].id != bids[n].id);
        }
        assert forall|m: int, n: int|
            #![trigger self@.asks[m], self@.bids[n]]
            0 <= m < self@.asks.len() && 0 <= n < self@.bids.len() implies self@.asks[m].id
            != self@.bids[n].id by {
            assert(self.index()[asks[m].id].side == OrderSide::Ask);
            assert(self.index()[bids[n].id].side == OrderSide::Bid);
        }
    }

    /// The orders resting on one side of a well-formed book are live orders
    /// of that side in price order.
    pub proof fn lemma_queue_valid(&self, side: OrderSide)
        requires
            self.wf(),
        ensures
            queue_valid(self@.queue(side), side),
    {
        reveal(queue_valid);
        self.lemma_resting_in_place(side);
        lemma_entries_sorted(self.levels(side), side);
        let queue = self.resting(side);
        assert(queue == self@.queue(side));
        assert forall|m: int, n: int|
            #![trigger queue[m], queue[n]]
            0 <= m < n < queue.len() implies !better(
            side,
            queue[n].limit_price,
            queue[m].limit_price,
        ) by {
            assert(queue[m].limit_price == self.entries(side)[m].price);
            assert(queue[n].limit_price == self.entries(side)[n].price);
        }
    }

    /// The ladder of `side` and what the index holds for its entries are the
    /// same in `self` and `after`.
    spec fn side_kept(&self, after: &Orderbook, side: OrderSide) -> bool {
        &&& after.levels(side) == self.levels(side)
        &&& forall|n: int|
            0 <= n < self.entries(side).len() ==> {
                let id = (#[trigger] self.entries(side)[n]).id;
                after.index().contains_key(id) && after.index()[id] == self.index()[id]
            }
    }

    /// A side that is kept stays structured and rests the same orders.
    proof fn lemma_side_kept(&self, after: &Orderbook, side: OrderSide)
        requires
            self.side_structured(side),
            self.side_kept(after, side),
        ensures
            after.side_structured(side),
            after.resting(side) == self.resting(side),
    {
        assert(after.entries(side) == self.entries(side));
        assert forall|n: int| 0 <= n < after.entries(side).len() implies {
            let entry = #[trigger] after.entries(side)[n];
            &&& after.index().contains_key(entry.id)
            &&& after.index()[entry.id].id == entry.id
            &&& after.index()[entry.id].side == side
            &&& after.index()[entry.id].limit_price == entry.price
        } by {
            let entry = self.entries(side)[n];
            assert(after.index()[entry.id] == self.index()[entry.id]);
        }
        assert forall|n: int| 0 <= n < self.resting(side).len() implies after.resting(side)[n]
            == self.resting(side)[n] by {
            let entry = self.entries(side)[n];
            assert(after.index()[entry.id] == self.index()[entry.id]);
        }
        assert(after.resting(side) =~= self.resting(side));
    }

    /// Putting a live order with a fresh identifier at its rank in the
    /// ladder of its side, and into the index, gives a well-formed book in
    /// which the order rests by price-time priority.
    proof fn lemma_inserted(&self, after: &Orderbook, order: OrderView)
        requires
            self.wf(),
            order.is_live(),
            !self.index().contains_key(order.id),
            ladder_wf(after.levels(order.side), order.side),
            after.entries(order.side) == self.entries(order.side).insert(
                rank(self.entries(order.side), order.side, order.limit_price),
                Entry { price: order.limit_price, id: order.id },
            ),
            after.levels(order.side.spec_opposite()) == self.levels(order.side.spec_opposite()),
            after.index() == self.index().insert(order.id, order),
        ensures
            after.wf(),
            after@ == self@.rest(order),
    {
        let side = order.side;
        let other = side.spec_opposite();
        let before = self.entries(side);
        let k = rank(before, side, order.limit_price);
        let entry = Entry { price: order.limit_price, id: order.id };
        let now = after.entries(side);
        assert(self.side_structured(side) && self.side_structured(other));
        assert(0 <= k <= before.len()) by {
            lemma_rank_bounds(before, side, order.limit_price);
        }
        assert(self.side_kept(after, other));
        self.lemma_side_kept(after, other);
        assert forall|n: int| 0 <= n < now.len() implies {
            let e = #[trigger] now[n];
            &&& after.index().contains_key(e.id)
            &&& after.index()[e.id].id == e.id
            &&& after.index()[e.id].side == side
            &&& after.index()[e.id].limit_price == e.price
        } by {
            if n < k {
                assert(now[n] == before[n]);
            } else if n > k {
                assert(now[n] == before[n - 1]);
            }
        }
        assert forall|m: int, n: int|
            #![trigger now[m], now[n]]
            0 <= m < n < now.len() implies now[m].id != now[n].id by {
            let m0 = if m < k {
                m
            } else {
                m - 1
            };
            let n0 = if n < k {
                n
            } else {
                n - 1
            };
            if m != k {
                assert(now[m] == before[m0]);
            }
            if n != k {
                assert(now[n] == before[n0]);
            }
        }
        assert(after.side_structured(side));
        assert forall|id: OrderId| #[trigger]
            after.index().contains_key(id) <==> queued(after.entries(OrderSide::Ask), id) || queued(
                after.entries(OrderSide::Bid),
                id,
            ) by {
            if id == order.id {
                assert(now[k].id == id);
            } else {
                if queued(now, id) {
                    let n = choose|n: int| 0 <= n < now.len() && (#[trigger] now[n]).id == id;
                    if n < k {
                        assert(now[n] == before[n]);
                    } else {
                        assert(now[n] == before[n - 1]);
                    }
                }
                if queued(before, id) {
                    let n = choose|n: int| 0 <= n < before.len() && (#[trigger] before[n]).id == id;
                    if n < k {
                        assert(now[n] == before[n]);
                    } else {
                        assert(now[n + 1] == before[n]);
                    }
                }
                assert(self.index().contains_key(id) <==> queued(
                    self.entries(OrderSide::Ask),
                    id,
                ) || queued(self.entries(OrderSide::Bid), id));
            }
        }
        assert(after.resting(side) =~= self.resting(side).insert(k, order)) by {
            assert forall|n: int| 0 <= n < now.len() implies after.resting(side)[n]
                == self.resting(side).insert(k, order)[n] by {
                if n < k {
                    assert(now[n] == before[n]);
                } else if n > k {
                    assert(now[n] == before[n - 1]);
                }
            }
        }
        assert(priority_rank(self.resting(side), order) == k) by {
            lemma_rank_agrees(before, self.index(), order);
        }
        assert forall|s: OrderSide, n: int| 0 <= n < after.resting(s).len() implies (
        #[trigger] after.resting(s)[n]).is_live() by {
            if s == side {
                if n < k {
                    assert(after.resting(s)[n] == self.resting(s)[n]);
                } else if n > k {
                    assert(after.resting(s)[n] == self.resting(s)[n - 1]);
                }
            } else {
                assert(s == other);
                assert(after.resting(s)[n] == self.resting(s)[n]);
            }
        }
        assert(after@ == self@.rest(order)) by {
            assert(after@.queue(side) == enqueue(self@.queue(side), order));
            assert(after@.queue(other) == self@.queue(other));
        }
    }

    /// Taking the entry at place `k` out of the ladder of `side`, and its
    /// identifier out of the index, gives a structured book without that
    /// order.
    proof fn lemma_removed(&self, after: &Orderbook, side: OrderSide, k: int)
        requires
            self.structured(),
            0 <= k < self.entries(side).len(),
            ladder_wf(after.levels(side), side),
            after.entries(side) == self.entries(side).remove(k),
            after.levels(side.spec_opposite()) == self.levels(side.spec_opposite()),
            after.index() == self.index().remove(self.entries(side)[k].id),
        ensures
            after.structured(),
            after.resting(side) == self.resting(side).remove(k),
            after.resting(side.spec_opposite()) == self.resting(side.spec_opposite()),
            self.resting(side)[k] == self.index()[self.entries(side)[k].id],
    {
        let other = side.spec_opposite();
        let before = self.entries(side);
        let id = before[k].id;
        let now = after.entries(side);
        assert(self.side_structured(side) && self.side_structured(other));
        assert(self.index()[id].side == side);
        assert(self.side_kept(after, other)) by {
            assert forall|n: int| 0 <= n < self.entries(other).len() implies {
                let i = (#[trigger] self.entries(other)[n]).id;
                after.index().contains_key(i) && after.index()[i] == self.index()[i]
            } by {
                let i = self.entries(other)[n].id;
                assert(self.index()[i].side == other);
            }
        }
        self.lemma_side_kept(after, other);
        assert forall|n: int| 0 <= n < now.len() implies {
            let e = #[trigger] now[n];
            &&& e.id != id
            &&& after.index().contains_key(e.id)
            &&& after.index()[e.id].id == e.id
            &&& after.index()[e.id].side == side
            &&& after.index()[e.id].limit_price == e.price
        } by {
            if n < k {
                assert(now[n] == before[n]);
                assert(before[n].id != before[k].id);
            } else {
                assert(now[n] == before[n + 1]);
                assert(before[k].id != before[n + 1].id);
            }
        }
        assert forall|m: int, n: int|
            #![trigger now[m], now[n]]
            0 <= m < n < now.len() implies now[m].id != now[n].id by {
            let m0 = if m < k {
                m
            } else {
                m + 1
            };
            let n0 = if n < k {
                n
            } else {
                n + 1
            };
            assert(now[m] == before[m0] && now[n] == before[n0]);
            assert(before[m0].id != before[n0].id);
        }
        assert(after.side_structured(side));
        assert forall|i: OrderId| #[trigger]
            after.index().contains_key(i) <==> queued(after.entries(OrderSide::Ask), i) || queued(
                after.entries(OrderSide::Bid),
                i,
            ) by {
            assert(self.index().contains_key(i) <==> queued(self.entries(OrderSide::Ask), i)
                || queued(self.entries(OrderSide::Bid), i));
            if queued(now, i) {
                let n = choose|n: int| 0 <= n < now.len() && (#[trigger] now[n]).id == i;
                if n < k {
                    assert(now[n] == before[n]);
                } else {
                    assert(now[n] == before[n + 1]);
                }
            }
            if i != id && queued(before, i) {
                let n = choose|n: int| 0 <= n < before.len() && (#[trigger] before[n]).id == i;
                if n < k {
                    assert(now[n] == before[n]);
                } else {
                    assert(now[n - 1] == before[n]);
                }
            }
            if i == id && queued(self.entries(other), i) {
                let n = choose|n: int|
                    0 <= n < self.entries(other).len() && (#[trigger] self.entries(other)[n]).id
                        == i;
                assert(self.index()[self.entries(other)[n].id].side == other);
            }
            if i == id && queued(now, i) {
                let n = choose|n: int| 0 <= n < now.len() && (#[trigger] now[n]).id == i;
                assert(now[n].id != id);
            }
        }
        assert(after.resting(side) =~= self.resting(side).remove(k)) by {
            assert forall|n: int| 0 <= n < now.len() implies after.resting(side)[n]
                == self.resting(side).remove(k)[n] by {
                if n < k {
                    assert(now[n] == before[n]);
                } else {
                    assert(now[n] == before[n + 1]);
                }
            }
        }
    }

    /// Replacing, in the index alone, the first order of `side` by one with
    /// the same identifier, side and limit price gives a structured book in
    /// which that order stands first.
    pub proof fn lemma_front_replaced(&self, after: &Orderbook, side: OrderSide, front: OrderView)
        requires
            self.structured(),
            self.entries(side).len() > 0,
            after.levels(OrderSide::Ask) == self.levels(OrderSide::Ask),
            after.levels(OrderSide::Bid) == self.levels(OrderSide::Bid),
            after.index() == self.index().insert(self.entries(side)[0].id, front),
            front.id == self.resting(side)[0].id,
            front.side == self.resting(side)[0].side,
            front.limit_price == self.resting(side)[0].limit_price,
        ensures
            after.structured(),
            after.resting(side) == self.resting(side).update(0, front),
            after.resting(side.spec_opposite()) == self.resting(side.spec_opposite()),
    {
        let other = side.spec_opposite();
        let entries = self.entries(side);
        let id = entries[0].id;
        assert(self.side_structured(side) && self.side_structured(other));
        assert(self.index().contains_key(id));
        assert(self.index()[id].side == side);
        assert(after.levels(other) == self.levels(other));
        assert(after.levels(side) == self.levels(side));
        assert(self.side_kept(after, other)) by {
            assert forall|n: int| 0 <= n < self.entries(other).len() implies {
                let i = (#[trigger] self.entries(other)[n]).id;
                after.index().contains_key(i) && after.index()[i] == self.index()[i]
            } by {
                let i = self.entries(other)[n].id;
                assert(self.index()[i].side == other);
            }
        }
        self.lemma_side_kept(after, other);
        assert forall|n: int| 0 <= n < entries.len() implies {
            let e = #[trigger] entries[n];
            &&& after.index().contains_key(e.id)
            &&& after.index()[e.id].id == e.id
            &&& after.index()[e.id].side == side
            &&& after.index()[e.id].limit_price == e.price
            &&& n > 0 ==> after.index()[e.id] == self.index()[e.id]
        } by {
            if n > 0 {
                assert(entries[0].id != entries[n].id);
            }
        }
        assert(after.side_structured(side));
        assert forall|i: OrderId| #[trigger]
            after.index().contains_key(i) <==> queued(after.entries(OrderSide::Ask), i) || queued(
                after.entries(OrderSide::Bid),
                i,
            ) by {
            assert(self.index().contains_key(i) <==> queued(self.entries(OrderSide::Ask), i)
                || queued(self.entries(OrderSide::Bid), i));
            assert(after.entries(OrderSide::Ask) == self.entries(OrderSide::Ask));
            assert(after.entries(OrderSide::Bid) == self.entries(OrderSide::Bid));
        }
        assert(after.resting(side) =~= self.resting(side).update(0, front));
    }

    /// In a structured book the indexed order of an identifier is queued on
    /// its own side, at its own limit price.
    proof fn lemma_queued_at(&self, id: OrderId)
        requires
            self.structured(),
            self.index().contains_key(id),
        ensures
            self.entries(self.index()[id].side).contains(
                Entry { price: self.index()[id].limit_price, id },
            ),
            self.index()[id].id == id,
    {
        let side = self.index()[id].side;
        let other = side.spec_opposite();
        assert(self.side_structured(side) && self.side_structured(other));
        if queued(self.entries(other), id) {
            let n = choose|n: int|
                0 <= n < self.entries(other).len() && (#[trigger] self.entries(other)[n]).id == id;
            assert(self.index()[self.entries(other)[n].id].side == other);
        }
        assert(queued(self.entries(side), id));
        let n = choose|n: int|
            0 <= n < self.entries(side).len() && (#[trigger] self.entries(side)[n]).id == id;
        assert(self.index()[self.entries(side)[n].id].limit_price == self.entries(side)[n].price);
        assert(self.entries(side)[n] == Entry { price: self.index()[id].limit_price, id });
    }

    /// Taking the order at place `k` of `side` out of a well-formed book
    /// leaves every resting order live.
    proof fn lemma_live_kept(&self, after: &Orderbook, side: OrderSide, k: int)
        requires
            self.all_live(),
            0 <= k < self.resting(side).len(),
            after.resting(side) == self.resting(side).remove(k),
            after.resting(side.spec_opposite()) == self.resting(side.spec_opposite()),
        ensures
            after.all_live(),
    {
        assert forall|s: OrderSide, n: int| 0 <= n < after.resting(s).len() implies (
        #[trigger] after.resting(s)[n]).is_live() by {
            if s == side {
                if n < k {
                    assert(after.resting(s)[n] == self.resting(s)[n]);
                } else {
                    assert(after.resting(s)[n] == self.resting(s)[n + 1]);
                }
            } else {
                assert(s == side.spec_opposite());
                assert(after.resting(s)[n] == self.resting(s)[n]);
            }
        }
    }

    /// Taking the order at place `k` of `side` out of a well-formed book is
    /// cancelling its identifier: the book stays well formed and rests
    /// everything but that order.
    proof fn lemma_cancelled(&self, after: &Orderbook, side: OrderSide, k: int)
        requires
            self.wf(),
            0 <= k < self.resting(side).len(),
            after.structured(),
            after.resting(side) == self.resting(side).remove(k),
            after.resting(side.spec_opposite()) == self.resting(side.spec_opposite()),
        ensures
            after.wf(),
            after@ == self@.cancel(self.resting(side)[k].id),
            self@.order(self.resting(side)[k].id) == self.resting(side)[k],
    {
        let id = self.resting(side)[k].id;
        let other = side.spec_opposite();
        self.lemma_live_kept(after, side, k);
        self.lemma_view_valid();
        self.lemma_resting_in_place(side);
        self.lemma_resting_in_place(other);
        let queue = self.resting(side);
        assert(has_id(queue, id));
        let chosen = place_of(queue, id);
        assert(chosen == k) by {
            assert(self.side_structured(side));
            if chosen < k {
                assert(self.entries(side)[chosen].id != self.entries(side)[k].id);
            } else if k < chosen {
                assert(self.entries(side)[k].id != self.entries(side)[chosen].id);
            }
        }
        assert(!has_id(self.resting(other), id)) by {
            if has_id(self.resting(other), id) {
                let n = place_of(self.resting(other), id);
                assert(self.resting(other)[n].id == id);
                assert(self.side_structured(other));
                assert(self.index()[self.entries(other)[n].id].side == other);
                assert(self.index()[self.entries(side)[k].id].side == side);
            }
        }
        assert(without(queue, id) == queue.remove(k));
        assert(without(self.resting(other), id) == self.resting(other));
        assert(self@.queue(side) == queue);
        assert(after@ == self@.cancel(id));
        if side == OrderSide::Bid {
            assert(!has_id(self@.asks, id));
        }
    }

    /// A book that rests the same orders as a well-formed one has only live
    /// orders resting.
    proof fn lemma_live_same(&self, after: &Orderbook)
        requires
            self.all_live(),
            after.resting(OrderSide::Ask) == self.resting(OrderSide::Ask),
            after.resting(OrderSide::Bid) == self.resting(OrderSide::Bid),
        ensures
            after.all_live(),
    {
        assert forall|s: OrderSide, n: int| 0 <= n < after.resting(s).len() implies (
        #[trigger] after.resting(s)[n]).is_live() by {
            assert(after.resting(s)[n] == self.resting(s)[n]);
        }
    }

    /// Replacing the first order of `side` by a live one leaves every
    /// resting order live.
    pub proof fn lemma_live_front(&self, after: &Orderbook, side: OrderSide, front: OrderView)
        requires
            self.all_live(),
            front.is_live(),
            self.resting(side).len() > 0,
            after.resting(side) == self.resting(side).update(0, front),
            after.resting(side.spec_opposite()) == self.resting(side.spec_opposite()),
        ensures
            after.all_live(),
    {
        assert forall|s: OrderSide, n: int| 0 <= n < after.resting(s).len() implies (
        #[trigger] after.resting(s)[n]).is_live() by {
            if s == side {
                if n > 0 {
                    assert(after.resting(s)[n] == self.resting(s)[n]);
                }
            } else {
                assert(s == side.spec_opposite());
                assert(after.resting(s)[n] == self.resting(s)[n]);
            }
        }
    }

    /// The number of indexed orders is the number of queued identifiers.
    proof fn lemma_population(&self)
        requires
            self.structured(),
            stored(self.orders).dom().finite(),
        ensures
            stored(self.orders).dom().len() == self.entries(OrderSide::Ask).len() + self.entries(
                OrderSide::Bid,
            ).len(),
    {
        let asks = self.entries(OrderSide::Ask);
        let bids = self.entries(OrderSide::Bid);
        let all = asks + bids;
        let keys = Seq::new(all.len(), |n: int| all[n].id.0);
        assert(self.side_structured(OrderSide::Ask) && self.side_structured(OrderSide::Bid));
        assert forall|m: int, n: int| 0 <= m < keys.len() && 0 <= n < keys.len() && m != n implies keys[m]
            != keys[n] by {
            let (a, b) = if m < n {
                (m, n)
            } else {
                (n, m)
            };
            if b < asks.len() {
                assert(all[a] == asks[a] && all[b] == asks[b]);
                assert(asks[a].id != asks[b].id);
            } else if a < asks.len() {
                assert(all[a] == asks[a] && all[b] == bids[b - asks.len()]);
                assert(self.index()[asks[a].id].side == OrderSide::Ask);
                assert(self.index()[bids[b - asks.len()].id].side == OrderSide::Bid);
            } else {
                assert(all[a] == bids[a - asks.len()] && all[b] == bids[b - asks.len()]);
                assert(bids[a - asks.len()].id != bids[b - asks.len()].id);
            }
        }
        assert(keys.no_duplicates());
        keys.unique_seq_to_set();
        assert(keys.to_set() =~= stored(self.orders).dom()) by {
            assert forall|key: u64| keys.to_set().contains(key) <==> stored(
                self.orders,
            ).dom().contains(key) by {
                let id = OrderId(key);
                assert(self.index().contains_key(id) <==> stored(self.orders).contains_key(key));
                assert(self.index().contains_key(id) <==> queued(asks, id) || queued(bids, id));
                if keys.to_set().contains(key) {
                    let n = choose|n: int| 0 <= n < keys.len() && keys[n] == key;
                    if n < asks.len() {
                        assert(all[n] == asks[n]);
                        assert(asks[n].id == id);
                    } else {
                        assert(all[n] == bids[n - asks.len()]);
                        assert(bids[n - asks.len()].id == id);
                    }
                }
                if queued(asks, id) {
                    let n = choose|n: int| 0 <= n < asks.len() && (#[trigger] asks[n]).id == id;
                    assert(all[n] == asks[n]);
                    assert(keys[n] == key);
                }
                if queued(bids, id) {
                    let n = choose|n: int| 0 <= n < bids.len() && (#[trigger] bids[n]).id == id;
                    assert(all[n + asks.len()] == bids[n]);
                    assert(keys[n + asks.len()] == key);
                }
            }
        }
    }

    /// An empty book for the pair called `pair`.
    pub fn new(pair: &str) -> (book: Orderbook)
        ensures
            book.wf(),
            book@ == BookView::empty(),
            book.pair() == pair@,
    {
        let book = Orderbook {
            pair: pair.to_owned(),
            orders: index_new(),
            ask: Ladder::new(),
            bid: Ladder::new(),
        };
        proof {
            assert(book.entries(OrderSide::Ask) =~= Seq::<Entry>::empty());
            assert(book.entries(OrderSide::Bid) =~= Seq::<Entry>::empty());
            assert(book@.asks =~= Seq::<OrderView>::empty());
            assert(book@.bids =~= Seq::<OrderView>::empty());
        }
        book
    }

    /// Whether an order with the identifier `order_id` rests in the book.
    pub fn contains(&self, order_id: &OrderId) -> (found: bool)
        requires
            self.structured(),
        ensures
            found == self@.contains(*order_id),
    {
        proof {
            self.lemma_contains(*order_id);
        }
        index_get(&self.orders, order_id.0).is_some()
    }

    /// Puts `order` to rest: at the back of the queue of its price level on
    /// its side, which is behind every resting order with a price at least
    /// as good and before every one with a worse price.
    pub fn insert(&mut self, order: Order)
        requires
            old(self).wf(),
            order@.is_live(),
            !old(self)@.contains(order@.id),
        ensures
            final(self).wf(),
            final(self)@ == old(self)@.rest(order@),
            final(self).pair() == old(self).pair(),
    {
        let ghost before = *self;
        proof {
            before.lemma_contains(order@.id);
            assert(before.side_structured(order@.side));
        }
        let id = order.id();
        match order.side() {
            OrderSide::Ask => self.ask.push(OrderSide::Ask, order.limit_price(), id),
            OrderSide::Bid => self.bid.push(OrderSide::Bid, order.limit_price(), id),
        }
        index_insert(&mut self.orders, id.0, order);
        proof {
            assert(self.index() =~= before.index().insert(order@.id, order@));
            before.lemma_inserted(self, order@);
        }
    }

    /// Cancels the order with the identifier `order_id` and takes it out of
    /// the book. Returns the cancelled order, or nothing if no such order
    /// rests, in which case the book is left as it was.
    pub fn remove(&mut self, order_id: &OrderId) -> (removed: Option<Order>)
        requires
            old(self).wf(),
        ensures
            final(self).wf(),
            final(self)@ == old(self)@.cancel(*order_id),
            final(self).pair() == old(self).pair(),
            match removed {
                Some(order) => old(self)@.contains(*order_id) && order@ == old(self)@.order(
                    *order_id,
                ).cancelled(),
                None => !old(self)@.contains(*order_id) && final(self)@ == old(self)@,
            },
    {
        let ghost before = *self;
        let ghost id = *order_id;
        proof {
            before.lemma_contains(id);
        }
        match index_get(&self.orders, order_id.0) {
            None => None,
            Some(found) => {
                let side = found.side();
                let price = found.limit_price();
                proof {
                    before.lemma_queued_at(id);
                }
                let place = match side {
                    OrderSide::Ask => self.ask.remove(OrderSide::Ask, price, *order_id),
                    OrderSide::Bid => self.bid.remove(OrderSide::Bid, price, *order_id),
                };
                let taken = index_swap_remove(&mut self.orders, order_id.0);
                proof {
                    let k = place.1@;
                    assert(self.index() =~= before.index().remove(id));
                    before.lemma_removed(self, side, k);
                    before.lemma_cancelled(self, side, k);
                }
                let mut order = taken.unwrap();
                order.cancel();
                Some(order)
            },
        }
    }

    /// The order of `side` that is matched first: the earliest arrival at the
    /// best price.
    pub fn peek(&self, side: &OrderSide) -> (first: Option<&Order>)
        requires
            self.structured(),
        ensures
            match first {
                Some(order) => self@.queue(*side).len() > 0 && order@ == self@.queue(*side)[0],
                None => self@.queue(*side).len() == 0,
            },
    {
        proof {
            assert(self.side_structured(*side));
            self.lemma_resting_in_place(*side);
        }
        let front = match side {
            OrderSide::Ask => self.ask.front(Ghost(OrderSide::Ask)),
            OrderSide::Bid => self.bid.front(Ghost(OrderSide::Bid)),
        };
        match front {
            None => None,
            Some(id) => index_get(&self.orders, id.0),
        }
    }

    /// A mutable reference to the order of `side` that is matched first.
    ///
    /// What is written through the reference is what the index holds for
    /// that order afterwards; the ladders do not change.
    pub fn peek_mut(&mut self, side: &OrderSide) -> (first: Option<&mut Order>)
        requires
            old(self).structured(),
        ensures
            final(self).levels(OrderSide::Ask) == old(self).levels(OrderSide::Ask),
            final(self).levels(OrderSide::Bid) == old(self).levels(OrderSide::Bid),
            final(self).pair() == old(self).pair(),
            match first {
                Some(order) => {
                    &&& old(self)@.queue(*side).len() > 0
                    &&& order@ == old(self)@.queue(*side)[0]
                    &&& final(self).index() == old(self).index().insert(
                        old(self).entries(*side)[0].id,
                        final(order)@,
                    )
                },
                None => old(self)@.queue(*side).len() == 0 && final(self).index() == old(
                    self,
                ).index(),
            },
    {
        proof {
            assert(self.side_structured(*side));
            self.lemma_resting_in_place(*side);
        }
        let front = match side {
            OrderSide::Ask => self.ask.front(Ghost(OrderSide::Ask)),
            OrderSide::Bid => self.bid.front(Ghost(OrderSide::Bid)),
        };
        match front {
            None => None,
            Some(id) => index_get_mut(&mut self.orders, id.0),
        }
    }

    /// Takes the order of `side` that is matched first out of the book, and
    /// its price level with it if that leaves the level empty.
    pub fn pop(&mut self, side: &OrderSide) -> (first: Option<Order>)
        requires
            old(self).structured(),
        ensures
            final(self).structured(),
            final(self)@ == old(self)@.pop(*side),
            final(self).pair() == old(self).pair(),
            final(self).index().dom().subset_of(old(self).index().dom()),
            old(self).wf() ==> final(self).wf(),
            match first {
                Some(order) => old(self)@.queue(*side).len() > 0 && order@ == old(self)@.queue(
                    *side,
                )[0],
                None => old(self)@.queue(*side).len() == 0,
            },
    {
        let ghost before = *self;
        proof {
            assert(before.side_structured(*side));
            before.lemma_resting_in_place(*side);
        }
        let front = match side {
            OrderSide::Ask => self.ask.pop(Ghost(OrderSide::Ask)),
            OrderSide::Bid => self.bid.pop(Ghost(OrderSide::Bid)),
        };
        match front {
            None => {
                proof {
                    assert(self.levels(OrderSide::Ask) == before.levels(OrderSide::Ask));
                    assert(self.levels(OrderSide::Bid) == before.levels(OrderSide::Bid));
                    assert(self.index() == before.index());
                }
                None
            },
            Some(id) => {
                let taken = index_swap_remove(&mut self.orders, id.0);
                proof {
                    assert(self.index() =~= before.index().remove(id));
                    assert(before.entries(*side).remove(0) =~= before.entries(*side).drop_first());
                    before.lemma_removed(self, *side, 0);
                    assert(before.resting(*side).remove(0) =~= before.resting(*side).drop_first());
                    assert(self@ == before@.pop(*side));
                    if before.wf() {
                        before.lemma_live_kept(self, *side, 0);
                    }
                }
                taken
            },
        }
    }

    /// The best ask price and the best bid price, if both sides hold orders.
    pub fn spread(&self) -> (prices: Option<(u64, u64)>)
        requires
            self.structured(),
        ensures
            prices == if self@.asks.len() > 0 && self@.bids.len() > 0 {
                Some((self@.asks[0].limit_price, self@.bids[0].limit_price))
            } else {
                None
            },
    {
        let ask = match self.peek(&OrderSide::Ask) {
            Some(order) => order.limit_price(),
            None => {
                return None;
            },
        };
        let bid = match self.peek(&OrderSide::Bid) {
            Some(order) => order.limit_price(),
            None => {
                return None;
            },
        };
        Some((ask, bid))
    }

    /// The number of orders resting on the ask side and on the bid side.
    pub fn len(&self) -> (counts: (usize, usize))
        requires
            self.structured(),
        ensures
            counts.0 == self@.asks.len(),
            counts.1 == self@.bids.len(),
    {
        let total = index_len(&self.orders);
        proof {
            self.lemma_population();
        }
        let asks = self.ask.len();
        (asks, total - asks)
    }

    /// Whether nothing rests in the book.
    pub fn is_empty(&self) -> (empty: bool)
        requires
            self.structured(),
        ensures
            empty == (self@.population() == 0),
    {
        let (asks, bids) = self.len();
        asks == 0 && bids == 0
    }

    /// Matches `order` against the other side of the book and, if it is
    /// still open afterwards, puts it to rest.
    ///
    /// The order trades with the resting orders of the other side in matching
    /// order, each at the resting order's limit price, for as long as it is
    /// open and the prices cross. A resting order that is filled in full
    /// leaves the book. Returns one `Traded` event per trade, in order,
    /// followed by `Added` if the order came to rest.
    pub fn matching(&mut self, order: Order) -> (events: Vec<Event>)
        requires
            old(self).wf(),
            order@.valid(),
            !old(self)@.contains(order@.id),
        ensures
            final(self).wf(),
            final(self)@ == old(self)@.matched(order@),
            events@ == old(self)@.match_events(order@),
            final(self).pair() == old(self).pair(),
    {
        let mut events: Vec<Event> = Vec::with_capacity(32);
        let mut incoming = order;
        let side = incoming.side();
        let opposite = side.opposite();
        let ghost start = *self;
        let ghost whole = sweep(order@, start@.queue(opposite));
        let ghost mut trades: Seq<Trade> = Seq::empty();
        proof {
            start.lemma_contains(order@.id);
        }
        loop
            invariant_except_break
                whole.taker == sweep(incoming@, self@.queue(opposite)).taker,
                whole.makers == sweep(incoming@, self@.queue(opposite)).makers,
                whole.trades == trades + sweep(incoming@, self@.queue(opposite)).trades,
            invariant
                self.wf(),
                incoming@.valid(),
                incoming@.side == side,
                incoming@.id == order@.id,
                opposite == side.spec_opposite(),
                !self.index().contains_key(order@.id),
                self.pair() == start.pair(),
                self@.queue(side) == start@.queue(side),
                events@ == trade_events(trades),
            ensures
                whole.taker == incoming@,
                whole.makers == self@.queue(opposite),
                whole.trades == trades,
            decreases self@.queue(opposite).len(),
        {
            let ghost before = *self;
            let ghost makers = self@.queue(opposite);
            if incoming.is_closed() {
                break ;
            }
            match self.peek_mut(&opposite) {
                None => {
                    break ;
                },
                Some(top) => {
                    proof {
                        assert(before.resting(opposite)[0].is_live());
                        before.lemma_resting_in_place(opposite);
                    }
                    let traded = incoming.trade(top);
                    let ghost maker_after = top@;
                    let closed = top.is_closed();
                    proof {
                        before.lemma_front_replaced(self, opposite, maker_after);
                    }
                    match traded {
                        None => {
                            proof {
                                assert(self.resting(opposite) =~= before.resting(opposite));
                                before.lemma_live_same(self);
                            }
                            break ;
                        },
                        Some(trade) => {
                            events.push(Event::traded(trade));
                            proof {
                                trades = trades.push(trade);
                                assert(events@ =~= trade_events(trades));
                            }
                            if closed {
                                self.pop(&opposite);
                                proof {
                                    assert(self.resting(opposite) =~= before.resting(
                                        opposite,
                                    ).remove(0));
                                    before.lemma_live_kept(self, opposite, 0);
                                    assert(makers.drop_first() =~= self@.queue(opposite));
                                    let rest = sweep(incoming@, makers.drop_first());
                                    assert(whole.trades =~= trades + rest.trades);
                                }
                            } else {
                                proof {
                                    before.lemma_live_front(self, opposite, maker_after);
                                }
                                break ;
                            }
                        },
                    }
                },
            }
        }
        if !incoming.is_closed() {
            events.push(Event::added(incoming.id()));
            proof {
                self.lemma_contains(order@.id);
            }
            self.insert(incoming);
        }
        proof {
            assert(events@ =~= start@.match_events(order@));
        }
        events
    }
}

} // verus!
