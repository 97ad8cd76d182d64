//! What one command does to a valid book: the laws of a single step.
use super::book::{
    admissible, disjoint_ids, enqueue, has_id, place_of, priority_rank, queue_valid, sweep,
    trade_events, unique_ids, BookView, Command,
};
use super::event::Event;
use super::ladder::better;
use super::order::OrderView;
use super::order_id::OrderId;
use super::queue::{
    lemma_absent, lemma_enqueue_front, lemma_enqueue_order, lemma_enqueue_place, lemma_found,
    lemma_priority_rank, lemma_without, lemma_without_ids, lemma_without_order,
};
use super::sweeping::{
    lemma_maker_fate, lemma_matched_sides, lemma_rested_ids, lemma_sweep, lemma_sweep_leaves,
    lemma_sweep_order, lemma_sweep_side, lemma_sweep_trades, lemma_untouched, lemma_volume_concat,
    lemma_volume_of_taker, rested_after, traded_volume,
};
use super::trade::Trade;
use crate::order_side::OrderSide;
use vstd::prelude::*;

verus! {

/// The two queues of a book do not share identifiers, whichever is named
/// first.
pub proof fn lemma_sides_disjoint(book: BookView, side: OrderSide)
    requires
        book.ids_unique(),
    ensures
        unique_ids(book.queue(side)),
        disjoint_ids(book.queue(side), book.queue(side.spec_opposite())),
{
    reveal(disjoint_ids);
    let these = book.queue(side);
    let those = book.queue(side.spec_opposite());
    assert forall|m: int, n: int|
        #![trigger these[m], those[n]]
        0 <= m < these.len() && 0 <= n < those.len() implies these[m].id != those[n].id by {
        if side == OrderSide::Ask {
            assert(book.asks[m].id != book.bids[n].id);
        } else {
            assert(book.asks[n].id != book.bids[m].id);
        }
    }
}

/// A book whose two queues are free of repeated and of shared identifiers
/// rests no identifier twice.
pub proof fn lemma_sides_unique(book: BookView, side: OrderSide)
    requires
        unique_ids(book.queue(side)),
        unique_ids(book.queue(side.spec_opposite())),
        disjoint_ids(book.queue(side), book.queue(side.spec_opposite())),
    ensures
        book.ids_unique(),
{
    reveal(disjoint_ids);
    let these = book.queue(side);
    let those = book.queue(side.spec_opposite());
    assert forall|m: int, n: int|
        #![trigger book.asks[m], book.bids[n]]
        0 <= m < book.asks.len() && 0 <= n < book.bids.len() implies book.asks[m].id
        != book.bids[n].id by {
        if side == OrderSide::Ask {
            assert(these[m].id != those[n].id);
        } else {
            assert(these[n].id != those[m].id);
        }
    }
}

/// The order at a place of a valid book is the one that its identifier
/// finds, and it rests on no other side.
pub proof fn lemma_order_at(book: BookView, side: OrderSide, n: int)
    requires
        book.ids_unique(),
        0 <= n < book.queue(side).len(),
    ensures
        book.contains(book.queue(side)[n].id),
        book.order(book.queue(side)[n].id) == book.queue(side)[n],
        has_id(book.queue(side), book.queue(side)[n].id),
        place_of(book.queue(side), book.queue(side)[n].id) == n,
        !has_id(book.queue(side.spec_opposite()), book.queue(side)[n].id),
{
    reveal(disjoint_ids);
    let id = book.queue(side)[n].id;
    let those = book.queue(side.spec_opposite());
    lemma_sides_disjoint(book, side);
    lemma_found(book.queue(side), n);
    lemma_absent(those, id);
    assert forall|m: int| 0 <= m < those.len() implies (#[trigger] those[m]).id != id by {
        assert(book.queue(side)[n].id != those[m].id);
    }
}

/// Where an order of a valid book rests: on the side and at the place at
/// which its identifier is found.
pub proof fn lemma_resting_place(book: BookView, id: OrderId)
    requires
        book.ids_unique(),
        book.contains(id),
    ensures
        ({
            let side = if has_id(book.asks, id) {
                OrderSide::Ask
            } else {
                OrderSide::Bid
            };
            let n = place_of(book.queue(side), id);
            &&& 0 <= n < book.queue(side).len()
            &&& book.queue(side)[n].id == id
            &&& book.order(id) == book.queue(side)[n]
        }),
{
}

/// An order that rests in a valid book is live.
pub proof fn lemma_resting_live(book: BookView, id: OrderId)
    requires
        book.valid(),
        book.contains(id),
    ensures
        book.order(id).is_live(),
{
    reveal(queue_valid);
    lemma_resting_place(book, id);
}

/// The parts of a valid book as matching needs them: each side a valid
/// queue without repeated identifiers, and no identifier on both.
pub proof fn lemma_valid_parts(book: BookView, side: OrderSide)
    requires
        book.valid(),
    ensures
        queue_valid(book.queue(side), side),
        queue_valid(book.queue(side.spec_opposite()), side.spec_opposite()),
        unique_ids(book.queue(side)),
        unique_ids(book.queue(side.spec_opposite())),
        forall|m: int|
            0 <= m < book.queue(side).len() ==> !has_id(
                book.queue(side.spec_opposite()),
                (#[trigger] book.queue(side)[m]).id,
            ),
{
    lemma_sides_disjoint(book, side);
    lemma_sides_disjoint(book, side.spec_opposite());
    assert forall|m: int| 0 <= m < book.queue(side).len() implies !has_id(
        book.queue(side.spec_opposite()),
        (#[trigger] book.queue(side)[m]).id,
    ) by {
        lemma_order_at(book, side, m);
    }
}

/// The two queues of a book after an order has been matched: the other side
/// holds what the sweep left, the order's side holds what it held, and the
/// order too if it is still open.
pub proof fn lemma_matched_queues(book: BookView, order: OrderView)
    ensures
        book.matched(order).queue(order.side.spec_opposite()) == sweep(
            order,
            book.queue(order.side.spec_opposite()),
        ).makers,
        book.matched(order).queue(order.side) == if sweep(
            order,
            book.queue(order.side.spec_opposite()),
        ).taker.is_closed() {
            book.queue(order.side)
        } else {
            enqueue(
                book.queue(order.side),
                sweep(order, book.queue(order.side.spec_opposite())).taker,
            )
        },
        sweep(order, book.queue(order.side.spec_opposite())).taker.side == order.side,
{
    lemma_sweep_side(order, book.queue(order.side.spec_opposite()));
}

/// A valid book is valid again after an admissible order has been matched.
pub proof fn lemma_matched_valid(book: BookView, order: OrderView)
    requires
        book.valid(),
        order.valid(),
        !book.contains(order.id),
    ensures
        book.matched(order).valid(),
{
    let side = order.side;
    let other = side.spec_opposite();
    let queue = book.queue(side);
    let makers = book.queue(other);
    let after = book.matched(order);
    lemma_matched_queues(book, order);
    lemma_sides_disjoint(book, side);
    lemma_sides_disjoint(book, other);
    lemma_matched_sides(queue, makers, order);
    assert(after.queue(side) == rested_after(queue, makers, order));
    assert(after.queue(other) == sweep(order, makers).makers);
    lemma_sides_unique(after, side);
}

/// A valid book is valid again after a cancellation.
pub proof fn lemma_cancel_valid(book: BookView, id: OrderId)
    requires
        book.valid(),
    ensures
        book.cancel(id).valid(),
        !book.cancel(id).contains(id),
{
    reveal(disjoint_ids);
    lemma_without(book.asks, OrderSide::Ask, id);
    lemma_without(book.bids, OrderSide::Bid, id);
    lemma_without_ids(book.asks, id);
    lemma_without_ids(book.bids, id);
    let after = book.cancel(id);
    assert forall|m: int, n: int|
        #![trigger after.asks[m], after.bids[n]]
        0 <= m < after.asks.len() && 0 <= n < after.bids.len() implies after.asks[m].id
        != after.bids[n].id by {
        assert(book.asks.contains(after.asks[m]));
        assert(book.bids.contains(after.bids[n]));
        let i = choose|i: int| 0 <= i < book.asks.len() && book.asks[i] == after.asks[m];
        let j = choose|j: int| 0 <= j < book.bids.len() && book.bids[j] == after.bids[n];
        assert(book.asks[i].id != book.bids[j].id);
    }
}

/// A valid book is valid again after any admissible command.
pub proof fn lemma_step_valid(book: BookView, command: Command)
    requires
        book.valid(),
        admissible(book, command),
    ensures
        book.step(command).book.valid(),
{
    match command {
        Command::Create(order) => {
            lemma_matched_valid(book, order);
        },
        Command::Delete(id) => {
            lemma_cancel_valid(book, id);
        },
    }
}

/// A book that is valid and not crossed is so again after any admissible
/// command: the best ask then stands strictly above the best bid.
pub proof fn lemma_step_uncrossed(book: BookView, command: Command)
    requires
        book.valid(),
        !book.crossed(),
        admissible(book, command),
    ensures
        !book.step(command).book.crossed(),
{
    reveal(queue_valid);
    match command {
        Command::Create(order) => {
            let side = order.side;
            let other = side.spec_opposite();
            let swept = sweep(order, book.queue(other));
            lemma_sweep(order, book.queue(other));
            let gone = book.queue(other).len() - swept.makers.len();
            let after = book.matched(order);
            if swept.makers.len() > 0 {
                assert(!better(
                    other,
                    book.queue(other)[gone].limit_price,
                    book.queue(other)[0].limit_price,
                ));
            }
            if !swept.taker.is_closed() {
                lemma_enqueue_front(book.queue(side), swept.taker);
            }
            assert(after.queue(other) == swept.makers);
        },
        Command::Delete(id) => {
            lemma_without(book.asks, OrderSide::Ask, id);
            lemma_without(book.bids, OrderSide::Bid, id);
        },
    }
}

/// Cancel idempotence: cancelling an identifier that does not rest changes
/// nothing and emits nothing, and so does cancelling any identifier a
/// second time.
pub proof fn lemma_cancel_idempotent(book: BookView, id: OrderId)
    requires
        book.valid(),
    ensures
        !book.contains(id) ==> book.step(Command::Delete(id)).book == book && book.step(
            Command::Delete(id),
        ).events == Seq::<Event>::empty(),
        book.step(Command::Delete(id)).book.step(Command::Delete(id)).book == book.step(
            Command::Delete(id),
        ).book,
        book.step(Command::Delete(id)).book.step(Command::Delete(id)).events == Seq::<
            Event,
        >::empty(),
{
    lemma_cancel_valid(book, id);
}

/// Price-time priority in matching: the trades of a match follow the queue
/// of the other side. If the order at place `later` trades at all, it does
/// so in the trade at that place, and the order at any place `earlier`
/// before it has traded in the trade at its own, earlier place and was
/// filled in full.
pub proof fn lemma_matched_in_order(book: BookView, order: OrderView, earlier: int, later: int)
    requires
        book.valid(),
        order.valid(),
        !book.contains(order.id),
        0 <= earlier < later < book.queue(order.side.spec_opposite()).len(),
    ensures
        ({
            let makers = book.queue(order.side.spec_opposite());
            let trades = sweep(order, makers).trades;
            forall|q: int|
                0 <= q < trades.len() && (#[trigger] trades[q]).maker == makers[later].id ==> {
                    &&& q == later
                    &&& trades[earlier].maker == makers[earlier].id
                    &&& trades[earlier].amount == makers[earlier].remaining()
                }
        }),
{
    reveal(unique_ids);
    let other = order.side.spec_opposite();
    let makers = book.queue(other);
    let trades = sweep(order, makers).trades;
    lemma_sides_disjoint(book, other);
    assert(queue_valid(makers, other));
    lemma_sweep_trades(order, makers);
    assert forall|q: int|
        0 <= q < trades.len() && (#[trigger] trades[q]).maker == makers[later].id implies {
        &&& q == later
        &&& trades[earlier].maker == makers[earlier].id
        &&& trades[earlier].amount == makers[earlier].remaining()
    } by {
        assert(trades[q].maker == makers[q].id);
        if q < later {
            assert(makers[q].id != makers[later].id);
        } else if later < q {
            assert(makers[later].id != makers[q].id);
        }
        assert(trades[earlier].maker == makers[earlier].id);
    }
}

/// The events of a match trade on an identifier what its trades do: the
/// entry of the order into the book trades nothing.
pub proof fn lemma_match_events_volume(book: BookView, order: OrderView, id: OrderId)
    ensures
        traded_volume(book.match_events(order), id) == traded_volume(
            trade_events(sweep(order, book.queue(order.side.spec_opposite())).trades),
            id,
        ),
{
    let swept = sweep(order, book.queue(order.side.spec_opposite()));
    let traded = trade_events(swept.trades);
    if !swept.taker.is_closed() {
        let added = seq![Event::Added(order.id)];
        assert(traded.push(Event::Added(order.id)) =~= traded + added);
        lemma_volume_concat(traded, added, id);
        assert(added.drop_first() =~= Seq::<Event>::empty());
        assert(traded_volume(added.drop_first(), id) == 0);
    }
}

/// What matching an order does on its own identifier: it is filled by what
/// its trades exchange, never beyond its amount, and rests afterwards
/// exactly if it is still open.
pub proof fn lemma_create_taker(book: BookView, order: OrderView)
    requires
        book.valid(),
        order.valid(),
        !book.contains(order.id),
    ensures
        ({
            let after = book.matched(order);
            let taker = sweep(order, book.queue(order.side.spec_opposite())).taker;
            let traded = traded_volume(book.match_events(order), order.id);
            &&& order.evolves_to(taker)
            &&& taker.filled == order.filled + traded
            &&& taker.filled <= order.amount
            &&& after.contains(order.id) <==> !taker.is_closed()
            &&& after.contains(order.id) ==> after.order(order.id) == taker
        }),
{
    let side = order.side;
    let other = side.spec_opposite();
    let queue = book.queue(side);
    let makers = book.queue(other);
    let swept = sweep(order, makers);
    let after = book.matched(order);
    lemma_valid_parts(book, side);
    lemma_matched_queues(book, order);
    lemma_matched_valid(book, order);
    lemma_match_events_volume(book, order, order.id);
    lemma_sweep(order, makers);
    lemma_sweep_trades(order, makers);
    lemma_volume_of_taker(swept.trades, order.id);
    lemma_sweep_leaves(queue, makers, order);
    assert(!has_id(after.queue(other), order.id)) by {
        if has_id(after.queue(other), order.id) {
            let n = place_of(after.queue(other), order.id);
            assert(has_id(makers, after.queue(other)[n].id));
        }
    }
    if swept.taker.is_closed() {
        assert(after.queue(side) == queue);
    } else {
        lemma_priority_rank(queue, swept.taker);
        let k = priority_rank(queue, swept.taker);
        assert(after.queue(side)[k] == swept.taker);
        lemma_order_at(after, side, k);
    }
}

/// What matching an order does to the order at place `p` of the other side:
/// it is filled by what is traded on it, never beyond its amount; it leaves
/// the book exactly if it is filled in full, and otherwise rests as a later
/// state of itself.
pub proof fn lemma_create_maker(book: BookView, order: OrderView, p: int)
    requires
        book.valid(),
        order.valid(),
        !book.contains(order.id),
        0 <= p < book.queue(order.side.spec_opposite()).len(),
    ensures
        ({
            let maker = book.queue(order.side.spec_opposite())[p];
            let after = book.matched(order);
            let traded = traded_volume(book.match_events(order), maker.id);
            &&& book.contains(maker.id) && book.order(maker.id) == maker
            &&& maker.filled + traded <= maker.amount
            &&& !after.contains(maker.id) ==> maker.filled + traded == maker.amount
            &&& after.contains(maker.id) ==> maker.evolves_to(after.order(maker.id))
                && after.order(maker.id).filled == maker.filled + traded
        }),
{
    let side = order.side;
    let other = side.spec_opposite();
    let queue = book.queue(side);
    let makers = book.queue(other);
    let maker = makers[p];
    let swept = sweep(order, makers);
    let gone = makers.len() - swept.makers.len();
    let after = book.matched(order);
    lemma_valid_parts(book, side);
    lemma_matched_queues(book, order);
    lemma_matched_valid(book, order);
    lemma_match_events_volume(book, order, maker.id);
    lemma_order_at(book, other, p);
    lemma_maker_fate(order, makers, p);
    if p >= gone {
        assert(after.queue(other)[p - gone].id == maker.id);
        lemma_order_at(after, other, p - gone);
    } else {
        lemma_absent(makers, order.id);
        lemma_valid_parts(book, other);
        if has_id(after.queue(side), maker.id) {
            lemma_rested_ids(queue, makers, order, maker.id);
        }
    }
}

/// What matching an order does to the order at place `p` of its own side:
/// nothing is traded on it, and it rests as it was.
pub proof fn lemma_create_bystander(book: BookView, order: OrderView, p: int)
    requires
        book.valid(),
        order.valid(),
        !book.contains(order.id),
        0 <= p < book.queue(order.side).len(),
    ensures
        ({
            let resting = book.queue(order.side)[p];
            let after = book.matched(order);
            &&& book.contains(resting.id) && book.order(resting.id) == resting
            &&& traded_volume(book.match_events(order), resting.id) == 0
            &&& after.contains(resting.id) && after.order(resting.id) == resting
        }),
{
    let side = order.side;
    let other = side.spec_opposite();
    let queue = book.queue(side);
    let makers = book.queue(other);
    let resting = queue[p];
    let swept = sweep(order, makers);
    let after = book.matched(order);
    lemma_valid_parts(book, side);
    lemma_matched_queues(book, order);
    lemma_matched_valid(book, order);
    lemma_match_events_volume(book, order, resting.id);
    lemma_order_at(book, side, p);
    lemma_untouched(order, makers, resting.id);
    if swept.taker.is_closed() {
        lemma_order_at(after, side, p);
    } else {
        lemma_enqueue_place(queue, swept.taker, p);
        let k = priority_rank(queue, swept.taker);
        let place = if p < k {
            p
        } else {
            p + 1
        };
        assert(after.queue(side)[place] == resting);
        lemma_order_at(after, side, place);
    }
}

/// Matching an order does nothing on an identifier that is neither its own
/// nor that of a resting order: nothing is traded on it, and no order with it
/// rests afterwards.
pub proof fn lemma_create_stranger(book: BookView, order: OrderView, id: OrderId)
    requires
        book.valid(),
        order.valid(),
        !book.contains(order.id),
        !book.contains(id),
        id != order.id,
    ensures
        traded_volume(book.match_events(order), id) == 0,
        !book.matched(order).contains(id),
{
    let side = order.side;
    let other = side.spec_opposite();
    let queue = book.queue(side);
    let makers = book.queue(other);
    let swept = sweep(order, makers);
    let after = book.matched(order);
    lemma_valid_parts(book, side);
    lemma_matched_queues(book, order);
    lemma_match_events_volume(book, order, id);
    lemma_untouched(order, makers, id);
    lemma_sweep_leaves(queue, makers, order);
    assert(!has_id(after.queue(other), id)) by {
        if has_id(after.queue(other), id) {
            let n = place_of(after.queue(other), id);
            assert(has_id(makers, after.queue(other)[n].id));
        }
    }
    if has_id(after.queue(side), id) {
        lemma_rested_ids(queue, makers, order, id);
    }
}

/// A cancellation trades nothing. It takes the order it names out of the
/// book and leaves every other order resting as it was.
pub proof fn lemma_delete_effect(book: BookView, cancelled: OrderId, id: OrderId)
    requires
        book.valid(),
    ensures
        traded_volume(book.step(Command::Delete(cancelled)).events, id) == 0,
        id == cancelled ==> !book.cancel(cancelled).contains(id),
        id != cancelled ==> (book.cancel(cancelled).contains(id) <==> book.contains(id)),
        id != cancelled && book.contains(id) ==> book.cancel(cancelled).order(id) == book.order(id),
{
    let events = book.step(Command::Delete(cancelled)).events;
    assert(traded_volume(events, id) == 0) by {
        if events.len() > 0 {
            assert(events.drop_first() =~= Seq::<Event>::empty());
            assert(traded_volume(events.drop_first(), id) == 0);
        }
    }
    let after = book.cancel(cancelled);
    lemma_cancel_valid(book, cancelled);
    if id != cancelled {
        lemma_sides_disjoint(book, OrderSide::Ask);
        lemma_sides_disjoint(book, OrderSide::Bid);
        lemma_without_ids(book.asks, cancelled);
        lemma_without_ids(book.bids, cancelled);
        if book.contains(id) {
            lemma_resting_place(book, id);
            let side = if has_id(book.asks, id) {
                OrderSide::Ask
            } else {
                OrderSide::Bid
            };
            let n = place_of(book.queue(side), id);
            let found = book.queue(side)[n];
            assert(after.queue(side).contains(found));
            let m = choose|m: int| 0 <= m < after.queue(side).len() && after.queue(side)[m] == found;
            lemma_order_at(after, side, m);
        }
        if after.contains(id) {
            lemma_resting_place(after, id);
            let side = if has_id(after.asks, id) {
                OrderSide::Ask
            } else {
                OrderSide::Bid
            };
            let m = place_of(after.queue(side), id);
            let found = after.queue(side)[m];
            assert(book.queue(side).contains(found));
            let n = choose|n: int| 0 <= n < book.queue(side).len() && book.queue(side)[n] == found;
            lemma_order_at(book, side, n);
        }
    }
}

/// A later state of a later state of an order is a later state of the
/// order.
pub proof fn lemma_evolves_on(first: OrderView, second: OrderView, third: OrderView)
    requires
        first.evolves_to(second),
        second.evolves_to(third),
    ensures
        first.evolves_to(third),
{
}

/// Conservation and monotonic fill in one step.
///
/// What a step trades on an identifier is what the order of that identifier
/// is filled by in that step, and never takes the fill beyond the order's
/// amount. An order that rests before and after the step is afterwards a
/// later state of itself. An order that rests before and not after was
/// cancelled by the step or filled in full by it. An order that the step
/// creates rests afterwards exactly if it is still open. On any other
/// identifier the step trades nothing and brings no order into the book.
pub proof fn lemma_step_fills(book: BookView, command: Command, id: OrderId)
    requires
        book.valid(),
        admissible(book, command),
    ensures
        ({
            let after = book.step(command).book;
            let traded = traded_volume(book.step(command).events, id);
            let created = command matches Command::Create(order) && order.id == id;
            &&& book.contains(id) && after.contains(id) ==> {
                &&& book.order(id).evolves_to(after.order(id))
                &&& after.order(id).filled == book.order(id).filled + traded
            }
            &&& book.contains(id) && !after.contains(id) ==> {
                ||| command == Command::Delete(id) && traded == 0
                ||| book.order(id).filled + traded == book.order(id).amount
            }
            &&& !book.contains(id) && created ==> {
                let order = command->Create_0;
                &&& order.filled + traded <= order.amount
                &&& after.contains(id) ==> order.evolves_to(after.order(id)) && after.order(
                    id,
                ).filled == order.filled + traded
            }
            &&& !book.contains(id) && !created ==> traded == 0 && !after.contains(id)
        }),
{
    match command {
        Command::Create(order) => {
            let side = order.side;
            let other = side.spec_opposite();
            if id == order.id {
                lemma_create_taker(book, order);
            } else if has_id(book.queue(other), id) {
                let p = place_of(book.queue(other), id);
                lemma_create_maker(book, order, p);
            } else if has_id(book.queue(side), id) {
                let p = place_of(book.queue(side), id);
                lemma_create_bystander(book, order, p);
            } else {
                lemma_create_stranger(book, order, id);
            }
        },
        Command::Delete(cancelled) => {
            lemma_delete_effect(book, cancelled, id);
        },
    }
}

/// How many events of a sequence are counted by `counted`.
pub open spec fn tally(events: Seq<Event>, counted: spec_fn(Event) -> bool) -> nat
    decreases events.len(),
{
    if events.len() == 0 {
        0
    } else {
        tally(events.drop_first(), counted) + if counted(events[0]) {
            1nat
        } else {
            0nat
        }
    }
}

/// The trade fills its maker, as it rests in `book`, in full.
pub open spec fn completes(book: BookView, trade: Trade) -> bool {
    book.contains(trade.maker) && book.order(trade.maker).remaining() == trade.amount
}

/// How many events report an order entering the book.
pub open spec fn additions(events: Seq<Event>) -> nat {
    tally(events, |event: Event| event is Added)
}

/// How many events report an order leaving the book by cancellation.
pub open spec fn removals(events: Seq<Event>) -> nat {
    tally(events, |event: Event| event is Removed)
}

/// How many events report a trade that fills its maker, as it rests in
/// `book`, in full.
pub open spec fn completions(events: Seq<Event>, book: BookView) -> nat {
    tally(events, |event: Event| event matches Event::Traded(trade) && completes(book, trade))
}

/// The tally of two sequences of events, one after the other, is the sum of
/// their tallies.
pub proof fn lemma_tally_concat(
    first: Seq<Event>,
    second: Seq<Event>,
    counted: spec_fn(Event) -> bool,
)
    ensures
        tally(first + second, counted) == tally(first, counted) + tally(second, counted),
    decreases first.len(),
{
    if first.len() == 0 {
        assert(first + second =~= second);
    } else {
        lemma_tally_concat(first.drop_first(), second, counted);
        assert((first + second).drop_first() =~= first.drop_first() + second);
    }
}

/// Where exactly the first `g` events are counted, the tally is `g`.
pub proof fn lemma_tally_prefix(events: Seq<Event>, counted: spec_fn(Event) -> bool, g: int)
    requires
        0 <= g <= events.len(),
        forall|i: int| 0 <= i < g ==> counted(#[trigger] events[i]),
        forall|i: int| g <= i < events.len() ==> !counted(#[trigger] events[i]),
    ensures
        tally(events, counted) == g,
    decreases events.len(),
{
    if events.len() > 0 {
        let rest = events.drop_first();
        let h = if g > 0 {
            g - 1
        } else {
            0
        };
        assert forall|i: int| 0 <= i < h implies counted(#[trigger] rest[i]) by {
            assert(rest[i] == events[i + 1]);
        }
        assert forall|i: int| h <= i < rest.len() implies !counted(#[trigger] rest[i]) by {
            assert(rest[i] == events[i + 1]);
        }
        lemma_tally_prefix(rest, counted, h);
    }
}

/// The tally of one event is one if it is counted and nothing if not.
pub proof fn lemma_tally_one(event: Event, counted: spec_fn(Event) -> bool)
    ensures
        tally(seq![event], counted) == if counted(event) {
            1nat
        } else {
            0nat
        },
{
    let one = seq![event];
    assert(one.drop_first() =~= Seq::<Event>::empty());
    assert(tally(one.drop_first(), counted) == 0);
}

/// Of the trades of a match, those that fill their maker in full are the
/// first ones, as many as makers left the book.
pub proof fn lemma_match_completions(book: BookView, order: OrderView)
    requires
        book.valid(),
        order.valid(),
        !book.contains(order.id),
    ensures
        ({
            let makers = book.queue(order.side.spec_opposite());
            let swept = sweep(order, makers);
            &&& swept.makers.len() <= makers.len()
            &&& completions(trade_events(swept.trades), book) == makers.len() - swept.makers.len()
            &&& additions(trade_events(swept.trades)) == 0
            &&& removals(trade_events(swept.trades)) == 0
        }),
{
    let other = order.side.spec_opposite();
    let makers = book.queue(other);
    let swept = sweep(order, makers);
    let gone = makers.len() - swept.makers.len();
    let events = trade_events(swept.trades);
    lemma_valid_parts(book, order.side);
    lemma_sweep_trades(order, makers);
    let complete = |event: Event| event matches Event::Traded(trade) && completes(book, trade);
    assert forall|i: int| 0 <= i < events.len() implies (i < gone <==> complete(
        #[trigger] events[i],
    )) by {
        lemma_order_at(book, other, i);
        assert(events[i] == Event::Traded(swept.trades[i]));
    }
    lemma_tally_prefix(events, complete, gone);
    lemma_tally_prefix(events, |event: Event| event is Added, 0);
    lemma_tally_prefix(events, |event: Event| event is Removed, 0);
}

/// Event faithfulness: in one step the book gains one order for each
/// `Added` event and loses one for each `Removed` event and for each
/// `Traded` event that fills its maker in full.
pub proof fn lemma_population(book: BookView, command: Command)
    requires
        book.valid(),
        admissible(book, command),
    ensures
        ({
            let outcome = book.step(command);
            outcome.book.population() + removals(outcome.events) + completions(
                outcome.events,
                book,
            ) == book.population() + additions(outcome.events)
        }),
{
    let outcome = book.step(command);
    let complete = |event: Event| event matches Event::Traded(trade) && completes(book, trade);
    let added = |event: Event| event is Added;
    let removed = |event: Event| event is Removed;
    match command {
        Command::Create(order) => {
            let side = order.side;
            let other = side.spec_opposite();
            let swept = sweep(order, book.queue(other));
            let traded = trade_events(swept.trades);
            lemma_match_completions(book, order);
            lemma_matched_queues(book, order);
            if !swept.taker.is_closed() {
                let entry = Event::Added(order.id);
                assert(traded.push(entry) =~= traded + seq![entry]);
                lemma_tally_concat(traded, seq![entry], complete);
                lemma_tally_concat(traded, seq![entry], added);
                lemma_tally_concat(traded, seq![entry], removed);
                lemma_tally_one(entry, complete);
                lemma_tally_one(entry, added);
                lemma_tally_one(entry, removed);
                lemma_priority_rank(book.queue(side), swept.taker);
            }
        },
        Command::Delete(id) => {
            if book.contains(id) {
                let exit = Event::Removed(id);
                lemma_tally_one(exit, complete);
                lemma_tally_one(exit, added);
                lemma_tally_one(exit, removed);
                lemma_resting_place(book, id);
                let side = if has_id(book.asks, id) {
                    OrderSide::Ask
                } else {
                    OrderSide::Bid
                };
                lemma_order_at(book, side, place_of(book.queue(side), id));
            } else {
                lemma_tally_prefix(outcome.events, complete, 0);
                lemma_tally_prefix(outcome.events, added, 0);
                lemma_tally_prefix(outcome.events, removed, 0);
            }
        },
    }
}

/// Time priority is kept: of two orders resting on one side, the one that
/// stands first still stands first after any step that leaves both resting.
/// If a step leaves the first, it leaves the second.
pub proof fn lemma_order_kept(book: BookView, command: Command, side: OrderSide, i: int, j: int)
    requires
        book.valid(),
        admissible(book, command),
        0 <= i < j < book.queue(side).len(),
        has_id(book.step(command).book.queue(side), book.queue(side)[i].id),
        command != Command::Delete(book.queue(side)[j].id),
    ensures
        has_id(book.step(command).book.queue(side), book.queue(side)[j].id),
        place_of(book.step(command).book.queue(side), book.queue(side)[i].id) < place_of(
            book.step(command).book.queue(side),
            book.queue(side)[j].id,
        ),
{
    let queue = book.queue(side);
    lemma_valid_parts(book, side);
    match command {
        Command::Create(order) => {
            lemma_matched_queues(book, order);
            if order.side == side {
                lemma_absent(queue, order.id);
                if !sweep(order, book.queue(side.spec_opposite())).taker.is_closed() {
                    lemma_sweep_side(order, book.queue(side.spec_opposite()));
                    lemma_enqueue_order(
                        queue,
                        sweep(order, book.queue(side.spec_opposite())).taker,
                        i,
                        j,
                    );
                } else {
                    lemma_found(queue, i);
                    lemma_found(queue, j);
                }
            } else {
                lemma_sweep_order(order, queue, i, j);
            }
        },
        Command::Delete(id) => {
            lemma_found(queue, i);
            if queue[i].id == id {
                lemma_without_ids(queue, id);
            } else {
                lemma_without_order(queue, id, i, j);
            }
        },
    }
}

} // verus!
