//! Facts about a sweep: what it does to the taker, to each maker, and what
//! its trades add up to.
use super::book::{
    disjoint_ids, enqueue, has_id, place_of, queue_valid, sweep, trade_events, unique_ids,
};
use super::event::Event;
use super::ladder::better;
use super::order::{crosses, lemma_trade_of_live, trade_between, OrderView};
use super::order_id::OrderId;
use super::queue::{
    lemma_absent, lemma_enqueue_ids, lemma_enqueue_valid, lemma_found, lemma_queue_tail,
};
use super::trade::Trade;
use vstd::prelude::*;

verus! {

/// The quantity exchanged over a sequence of trades.
pub open spec fn volume(trades: Seq<Trade>) -> nat
    decreases trades.len(),
{
    if trades.len() == 0 {
        0
    } else {
        trades[0].amount as nat + volume(trades.drop_first())
    }
}

/// What one event trades on the identifier `id`: the quantity of a trade
/// that `id` takes part in, as taker or as maker, and nothing otherwise.
pub open spec fn share(event: Event, id: OrderId) -> nat {
    match event {
        Event::Traded(trade) => if trade.taker == id || trade.maker == id {
            trade.amount as nat
        } else {
            0
        },
        _ => 0,
    }
}

/// What a sequence of events trades on the identifier `id` in all.
pub open spec fn traded_volume(events: Seq<Event>, id: OrderId) -> nat
    decreases events.len(),
{
    if events.len() == 0 {
        0
    } else {
        share(events[0], id) + traded_volume(events.drop_first(), id)
    }
}

/// The traded volume of two sequences of events, one after the other, is
/// the sum of their traded volumes.
pub proof fn lemma_volume_concat(first: Seq<Event>, second: Seq<Event>, id: OrderId)
    ensures
        traded_volume(first + second, id) == traded_volume(first, id) + traded_volume(second, id),
    decreases first.len(),
{
    if first.len() == 0 {
        assert(first + second =~= second);
    } else {
        lemma_volume_concat(first.drop_first(), second, id);
        assert((first + second).drop_first() =~= first.drop_first() + second);
    }
}

/// Events of which at most the one at place `p` trades on `id` trade what
/// that one trades.
pub proof fn lemma_volume_single(events: Seq<Event>, id: OrderId, p: int)
    requires
        forall|i: int| 0 <= i < events.len() && i != p ==> share(#[trigger] events[i], id) == 0,
    ensures
        traded_volume(events, id) == if 0 <= p < events.len() {
            share(events[p], id)
        } else {
            0
        },
    decreases events.len(),
{
    if events.len() > 0 {
        let rest = events.drop_first();
        assert forall|i: int| 0 <= i < rest.len() && i != p - 1 implies share(
            #[trigger] rest[i],
            id,
        ) == 0 by {
            assert(rest[i] == events[i + 1]);
        }
        lemma_volume_single(rest, id, p - 1);
        if p > 0 && p < events.len() {
            assert(rest[p - 1] == events[p]);
        }
    }
}

/// The events of trades that all have `id` for their taker trade the whole
/// volume of the trades on `id`.
pub proof fn lemma_volume_of_taker(trades: Seq<Trade>, id: OrderId)
    requires
        forall|i: int| 0 <= i < trades.len() ==> (#[trigger] trades[i]).taker == id,
    ensures
        traded_volume(trade_events(trades), id) == volume(trades),
    decreases trades.len(),
{
    let events = trade_events(trades);
    if trades.len() > 0 {
        let rest = trades.drop_first();
        assert forall|i: int| 0 <= i < rest.len() implies (#[trigger] rest[i]).taker == id by {
            assert(rest[i] == trades[i + 1]);
        }
        lemma_volume_of_taker(rest, id);
        assert(events.drop_first() =~= trade_events(rest));
        assert(events[0] == Event::Traded(trades[0]));
    }
}

/// A sweep leaves the taker its identity and its terms.
pub proof fn lemma_sweep_side(taker: OrderView, makers: Seq<OrderView>)
    ensures
        sweep(taker, makers).taker.side == taker.side,
        sweep(taker, makers).taker.id == taker.id,
        sweep(taker, makers).taker.limit_price == taker.limit_price,
        sweep(taker, makers).taker.amount == taker.amount,
        sweep(taker, makers).taker.account_id == taker.account_id,
    decreases makers.len(),
{
    if taker.is_closed() || makers.len() == 0 || !crosses(taker, makers[0]) {
    } else {
        lemma_sweep_side(taker.after_trade(makers[0]), makers.drop_first());
    }
}

/// What a sweep does to a well-formed taker and a valid queue of makers.
///
/// The taker moves along its life cycle and stays well formed. The makers
/// that are left are the old ones behind those that were filled in full,
/// the first of them possibly partly filled, and they form a valid queue. A
/// taker that is still open afterwards does not cross what is left.
pub proof fn lemma_sweep(taker: OrderView, makers: Seq<OrderView>)
    requires
        taker.valid(),
        queue_valid(makers, taker.side.spec_opposite()),
    ensures
        ({
            let swept = sweep(taker, makers);
            let gone = makers.len() - swept.makers.len();
            &&& swept.taker.valid()
            &&& taker.evolves_to(swept.taker)
            &&& 0 <= gone <= swept.trades.len() <= gone + 1
            &&& queue_valid(swept.makers, taker.side.spec_opposite())
            &&& forall|n: int|
                0 < n < swept.makers.len() ==> #[trigger] swept.makers[n] == makers[n + gone]
            &&& swept.makers.len() > 0 ==> makers[gone].evolves_to(swept.makers[0])
            &&& !swept.taker.is_closed() && swept.makers.len() > 0 ==> !crosses(
                swept.taker,
                swept.makers[0],
            )
        }),
    decreases makers.len(),
{
    reveal(queue_valid);
    let side = taker.side.spec_opposite();
    let swept = sweep(taker, makers);
    if taker.is_closed() || makers.len() == 0 || !crosses(taker, makers[0]) {
    } else {
        lemma_trade_of_live(taker, makers[0]);
        let taker_after = taker.after_trade(makers[0]);
        let maker_after = makers[0].after_trade(taker);
        if maker_after.is_closed() {
            let rest = makers.drop_first();
            assert(queue_valid(rest, side)) by {
                assert forall|n: int| 0 <= n < rest.len() implies (#[trigger] rest[n]).side == side
                    && rest[n].is_live() by {
                    assert(rest[n] == makers[n + 1]);
                }
                assert forall|m: int, n: int|
                    #![trigger rest[m], rest[n]]
                    0 <= m < n < rest.len() implies !better(
                    side,
                    rest[n].limit_price,
                    rest[m].limit_price,
                ) by {
                    assert(rest[m] == makers[m + 1] && rest[n] == makers[n + 1]);
                }
            }
            lemma_sweep(taker_after, rest);
            let inner = sweep(taker_after, rest);
            let gone = makers.len() - swept.makers.len();
            assert(swept.makers == inner.makers);
            assert forall|n: int| 0 < n < swept.makers.len() implies #[trigger] swept.makers[n]
                == makers[n + gone] by {
                assert(inner.makers[n] == rest[n + gone - 1]);
            }
            if swept.makers.len() > 0 {
                assert(rest[gone - 1] == makers[gone]);
            }
        } else {
            let after = makers.update(0, maker_after);
            assert(swept.makers == after);
            assert forall|n: int| 0 <= n < after.len() implies (#[trigger] after[n]).side == side
                && after[n].is_live() by {
                if n > 0 {
                    assert(after[n] == makers[n]);
                }
            }
            assert forall|m: int, n: int|
                #![trigger after[m], after[n]]
                0 <= m < n < after.len() implies !better(
                side,
                after[n].limit_price,
                after[m].limit_price,
            ) by {
                assert(after[n] == makers[n]);
                assert(after[m].limit_price == makers[m].limit_price);
            }
        }
    }
}

/// The trades of a sweep follow the queue: the `q`-th trade is made with the
/// `q`-th maker, at that maker's limit price, for a positive quantity. Every
/// maker that left the queue was filled by its trade in full; a last trade
/// may fill the maker that now stands first in part. The taker is filled by
/// the volume of all trades.
pub proof fn lemma_sweep_trades(taker: OrderView, makers: Seq<OrderView>)
    requires
        taker.valid(),
        queue_valid(makers, taker.side.spec_opposite()),
    ensures
        ({
            let swept = sweep(taker, makers);
            let gone = makers.len() - swept.makers.len();
            &&& 0 <= gone <= swept.trades.len() <= gone + 1
            &&& swept.trades.len() <= makers.len()
            &&& swept.taker.filled == taker.filled + volume(swept.trades)
            &&& forall|q: int|
                0 <= q < swept.trades.len() ==> {
                    let trade = #[trigger] swept.trades[q];
                    &&& trade.taker == taker.id
                    &&& trade.maker == makers[q].id
                    &&& trade.price == makers[q].limit_price
                    &&& 0 < trade.amount <= makers[q].remaining()
                    &&& q < gone ==> trade.amount == makers[q].remaining()
                }
            &&& swept.trades.len() == gone && swept.makers.len() > 0 ==> swept.makers[0]
                == makers[gone]
            &&& swept.trades.len() == gone + 1 ==> {
                &&& swept.makers.len() > 0
                &&& swept.makers[0] == makers[gone].filled_by(swept.trades[gone].amount as int)
                &&& swept.trades[gone].amount < makers[gone].remaining()
                &&& swept.taker.is_closed()
            }
        }),
    decreases makers.len(),
{
    reveal(queue_valid);
    let side = taker.side.spec_opposite();
    let swept = sweep(taker, makers);
    if taker.is_closed() || makers.len() == 0 || !crosses(taker, makers[0]) {
    } else {
        lemma_trade_of_live(taker, makers[0]);
        let trade = trade_between(taker, makers[0])->0;
        let taker_after = taker.after_trade(makers[0]);
        let maker_after = makers[0].after_trade(taker);
        if maker_after.is_closed() {
            let rest = makers.drop_first();
            lemma_queue_tail(makers, side);
            lemma_sweep_trades(taker_after, rest);
            let inner = sweep(taker_after, rest);
            let gone = makers.len() - swept.makers.len();
            assert(swept.trades == seq![trade] + inner.trades);
            assert(swept.trades.drop_first() =~= inner.trades);
            assert forall|q: int| 0 <= q < swept.trades.len() implies {
                let t = #[trigger] swept.trades[q];
                &&& t.taker == taker.id
                &&& t.maker == makers[q].id
                &&& t.price == makers[q].limit_price
                &&& 0 < t.amount <= makers[q].remaining()
                &&& q < gone ==> t.amount == makers[q].remaining()
            } by {
                if q > 0 {
                    assert(swept.trades[q] == inner.trades[q - 1]);
                    assert(rest[q - 1] == makers[q]);
                }
            }
            if swept.makers.len() > 0 {
                assert(rest[gone - 1] == makers[gone]);
            }
            if swept.trades.len() == gone + 1 {
                assert(swept.trades[gone] == inner.trades[gone - 1]);
            }
        } else {
            assert(swept.trades.drop_first() =~= Seq::<Trade>::empty());
            assert(volume(Seq::<Trade>::empty()) == 0);
            assert(volume(swept.trades) == trade.amount);
            assert(swept.makers[0] == makers[0].filled_by(trade.amount as int));
        }
    }
}

/// The makers that a sweep leaves carry identifiers of the old makers, in
/// the old order, so none is repeated.
pub proof fn lemma_sweep_ids(taker: OrderView, makers: Seq<OrderView>)
    requires
        taker.valid(),
        queue_valid(makers, taker.side.spec_opposite()),
        unique_ids(makers),
    ensures
        unique_ids(sweep(taker, makers).makers),
        sweep(taker, makers).makers.len() <= makers.len(),
        forall|n: int|
            0 <= n < sweep(taker, makers).makers.len() ==> (#[trigger] sweep(
                taker,
                makers,
            ).makers[n]).id == makers[n + makers.len() - sweep(taker, makers).makers.len()].id,
{
    reveal(unique_ids);
    lemma_sweep(taker, makers);
    let left = sweep(taker, makers).makers;
    let gone = makers.len() - left.len();
    assert forall|n: int| 0 <= n < left.len() implies (#[trigger] left[n]).id == makers[n
        + gone].id by {
        if n > 0 {
            assert(left[n] == makers[n + gone]);
        }
    }
    assert forall|m: int, n: int|
        #![trigger left[m], left[n]]
        0 <= m < n < left.len() implies left[m].id != left[n].id by {
        assert(makers[m + gone].id != makers[n + gone].id);
    }
}

/// Matching trades nothing on an identifier that is neither the taker's nor
/// that of an order resting on the other side.
pub proof fn lemma_untouched(taker: OrderView, makers: Seq<OrderView>, id: OrderId)
    requires
        taker.valid(),
        queue_valid(makers, taker.side.spec_opposite()),
        taker.id != id,
        !has_id(makers, id),
    ensures
        traded_volume(trade_events(sweep(taker, makers).trades), id) == 0,
{
    let swept = sweep(taker, makers);
    let events = trade_events(swept.trades);
    lemma_sweep_trades(taker, makers);
    lemma_absent(makers, id);
    assert forall|i: int| 0 <= i < events.len() && i != -1 implies share(#[trigger] events[i], id)
        == 0 by {
        assert(swept.trades[i].maker == makers[i].id);
    }
    lemma_volume_single(events, id, -1);
}

/// What a sweep does on the identifier of the maker at place `p`.
///
/// Only the trade at place `p`, if there is one, trades on it. A maker
/// before the ones that are left was filled in full by that trade and is
/// gone. Any other maker is left, at its place behind those that are gone,
/// as a later state of itself, filled by what was traded on it.
pub proof fn lemma_maker_fate(taker: OrderView, makers: Seq<OrderView>, p: int)
    requires
        taker.valid(),
        queue_valid(makers, taker.side.spec_opposite()),
        unique_ids(makers),
        !has_id(makers, taker.id),
        0 <= p < makers.len(),
    ensures
        ({
            let swept = sweep(taker, makers);
            let gone = makers.len() - swept.makers.len();
            let traded = traded_volume(trade_events(swept.trades), makers[p].id);
            &&& 0 <= gone
            &&& traded == if p < swept.trades.len() {
                swept.trades[p].amount
            } else {
                0
            }
            &&& p < gone ==> !has_id(swept.makers, makers[p].id) && makers[p].filled + traded
                == makers[p].amount
            &&& p >= gone ==> {
                &&& makers[p].evolves_to(swept.makers[p - gone])
                &&& swept.makers[p - gone].filled == makers[p].filled + traded
                &&& swept.makers[p - gone].filled <= makers[p].amount
            }
        }),
{
    reveal(unique_ids);
    let swept = sweep(taker, makers);
    let gone = makers.len() - swept.makers.len();
    let id = makers[p].id;
    let events = trade_events(swept.trades);
    lemma_sweep_trades(taker, makers);
    lemma_absent(makers, taker.id);
    assert forall|i: int| 0 <= i < events.len() && i != p implies share(#[trigger] events[i], id)
        == 0 by {
        let trade = swept.trades[i];
        assert(trade.maker == makers[i].id);
        if i < p {
            assert(makers[i].id != makers[p].id);
        } else {
            assert(makers[p].id != makers[i].id);
        }
    }
    lemma_volume_single(events, id, p);
    if p < swept.trades.len() {
        assert(swept.trades[p].maker == makers[p].id);
    }
    if p < gone {
        lemma_sweep_ids(taker, makers);
        lemma_absent(swept.makers, id);
        assert forall|n: int| 0 <= n < swept.makers.len() implies (#[trigger] swept.makers[n]).id
            != id by {
            assert(makers[p].id != makers[n + gone].id);
        }
    } else {
        reveal(queue_valid);
        lemma_sweep(taker, makers);
        assert(swept.makers[p - gone].valid());
        if p > gone {
            assert(swept.makers[p - gone] == makers[p]);
        }
    }
}

/// What matching an order leaves on the two sides, given what rested on
/// them: the order's own queue, with the order in it if it is still open.
pub open spec fn rested_after(queue: Seq<OrderView>, makers: Seq<OrderView>, order: OrderView) -> Seq<
    OrderView,
> {
    if sweep(order, makers).taker.is_closed() {
        queue
    } else {
        enqueue(queue, sweep(order, makers).taker)
    }
}

/// What a sweep leaves of a valid queue of makers without repeated
/// identifiers is such a queue again, and carries only their identifiers.
pub proof fn lemma_sweep_leaves(queue: Seq<OrderView>, makers: Seq<OrderView>, order: OrderView)
    requires
        order.valid(),
        queue_valid(makers, order.side.spec_opposite()),
        unique_ids(makers),
    ensures
        sweep(order, makers).taker.valid(),
        sweep(order, makers).taker.side == order.side,
        sweep(order, makers).taker.id == order.id,
        queue_valid(sweep(order, makers).makers, order.side.spec_opposite()),
        unique_ids(sweep(order, makers).makers),
        forall|n: int|
            0 <= n < sweep(order, makers).makers.len() ==> has_id(
                makers,
                (#[trigger] sweep(order, makers).makers[n]).id,
            ),
{
    let left = sweep(order, makers).makers;
    lemma_sweep_side(order, makers);
    lemma_sweep(order, makers);
    lemma_sweep_ids(order, makers);
    let gone = makers.len() - left.len();
    assert forall|n: int| 0 <= n < left.len() implies has_id(makers, (#[trigger] left[n]).id) by {
        assert(makers[n + gone].id == left[n].id);
    }
}

/// The taker's own side stays a valid queue without repeated identifiers
/// when the taker, if still open, is put to rest on it.
pub proof fn lemma_taker_rests(queue: Seq<OrderView>, makers: Seq<OrderView>, order: OrderView)
    requires
        sweep(order, makers).taker.valid(),
        sweep(order, makers).taker.side == order.side,
        sweep(order, makers).taker.id == order.id,
        queue_valid(queue, order.side),
        unique_ids(queue),
        !has_id(queue, order.id),
    ensures
        queue_valid(rested_after(queue, makers, order), order.side),
        unique_ids(rested_after(queue, makers, order)),
        forall|m: int|
            0 <= m < rested_after(queue, makers, order).len() ==> (#[trigger] rested_after(
                queue,
                makers,
                order,
            )[m]) == sweep(order, makers).taker || queue.contains(
                rested_after(queue, makers, order)[m],
            ),
{
    let taker = sweep(order, makers).taker;
    let rested = rested_after(queue, makers, order);
    if !taker.is_closed() {
        lemma_enqueue_valid(queue, taker);
        lemma_enqueue_ids(queue, taker);
    } else {
        assert forall|m: int| 0 <= m < rested.len() implies queue.contains(#[trigger] rested[m]) by {}
    }
}

/// Orders drawn from two queues that share no identifier, together with
/// one order whose identifier the second queue lacks, share no identifier
/// with orders that carry identifiers of the second queue.
pub proof fn lemma_disjoint_kept(
    rested: Seq<OrderView>,
    queue: Seq<OrderView>,
    extra: OrderView,
    left: Seq<OrderView>,
    makers: Seq<OrderView>,
)
    requires
        disjoint_ids(queue, makers),
        !has_id(makers, extra.id),
        forall|m: int|
            0 <= m < rested.len() ==> (#[trigger] rested[m]) == extra || queue.contains(rested[m]),
        forall|n: int| 0 <= n < left.len() ==> has_id(makers, (#[trigger] left[n]).id),
    ensures
        disjoint_ids(rested, left),
{
    reveal(disjoint_ids);
    assert forall|m: int, n: int|
        #![trigger rested[m], left[n]]
        0 <= m < rested.len() && 0 <= n < left.len() implies rested[m].id != left[n].id by {
        let j = place_of(makers, left[n].id);
        assert(makers[j].id == left[n].id);
        if rested[m] == extra {
            lemma_absent(makers, extra.id);
        } else {
            let i = choose|i: int| 0 <= i < queue.len() && queue[i] == rested[m];
            assert(queue[i].id != makers[j].id);
        }
    }
}

/// After matching, the two sides still share no identifier.
pub proof fn lemma_rested_disjoint(queue: Seq<OrderView>, makers: Seq<OrderView>, order: OrderView)
    requires
        disjoint_ids(queue, makers),
        !has_id(makers, order.id),
        sweep(order, makers).taker.id == order.id,
        forall|n: int|
            0 <= n < sweep(order, makers).makers.len() ==> has_id(
                makers,
                (#[trigger] sweep(order, makers).makers[n]).id,
            ),
        forall|m: int|
            0 <= m < rested_after(queue, makers, order).len() ==> (#[trigger] rested_after(
                queue,
                makers,
                order,
            )[m]) == sweep(order, makers).taker || queue.contains(
                rested_after(queue, makers, order)[m],
            ),
    ensures
        disjoint_ids(rested_after(queue, makers, order), sweep(order, makers).makers),
{
    lemma_disjoint_kept(
        rested_after(queue, makers, order),
        queue,
        sweep(order, makers).taker,
        sweep(order, makers).makers,
        makers,
    );
}

/// An identifier found on the taker's side after matching is the taker's or
/// was found on that side before.
pub proof fn lemma_rested_ids(
    queue: Seq<OrderView>,
    makers: Seq<OrderView>,
    order: OrderView,
    id: OrderId,
)
    requires
        order.valid(),
        queue_valid(queue, order.side),
        queue_valid(makers, order.side.spec_opposite()),
        unique_ids(queue),
        unique_ids(makers),
        !has_id(queue, order.id),
        has_id(rested_after(queue, makers, order), id),
    ensures
        id == order.id || has_id(queue, id),
{
    let rested = rested_after(queue, makers, order);
    let swept = sweep(order, makers);
    lemma_sweep_leaves(queue, makers, order);
    lemma_taker_rests(queue, makers, order);
    let n = place_of(rested, id);
    let found = rested[n];
    assert(found == swept.taker || queue.contains(found));
    if found != swept.taker {
        let m = choose|m: int| 0 <= m < queue.len() && queue[m] == found;
        assert(queue[m].id == id);
    }
}

/// Matching a well-formed order with a fresh identifier against valid
/// queues that share no identifier leaves such queues.
pub proof fn lemma_matched_sides(queue: Seq<OrderView>, makers: Seq<OrderView>, order: OrderView)
    requires
        order.valid(),
        queue_valid(queue, order.side),
        queue_valid(makers, order.side.spec_opposite()),
        unique_ids(queue),
        unique_ids(makers),
        disjoint_ids(queue, makers),
        !has_id(queue, order.id),
        !has_id(makers, order.id),
    ensures
        queue_valid(rested_after(queue, makers, order), order.side),
        queue_valid(sweep(order, makers).makers, order.side.spec_opposite()),
        unique_ids(rested_after(queue, makers, order)),
        unique_ids(sweep(order, makers).makers),
        disjoint_ids(rested_after(queue, makers, order), sweep(order, makers).makers),
{
    lemma_sweep_leaves(queue, makers, order);
    lemma_taker_rests(queue, makers, order);
    lemma_rested_disjoint(queue, makers, order);
}

/// Where `left` carries, in order, the identifiers of the last orders of
/// `makers`, an order of `makers` that is found in `left` is followed there
/// by every order that followed it in `makers`.
pub proof fn lemma_suffix_order(left: Seq<OrderView>, makers: Seq<OrderView>, i: int, j: int)
    requires
        left.len() <= makers.len(),
        forall|n: int|
            0 <= n < left.len() ==> (#[trigger] left[n]).id == makers[n + makers.len()
                - left.len()].id,
        unique_ids(makers),
        unique_ids(left),
        0 <= i < j < makers.len(),
        has_id(left, makers[i].id),
    ensures
        has_id(left, makers[j].id),
        place_of(left, makers[i].id) < place_of(left, makers[j].id),
{
    let gone = makers.len() - left.len();
    let n = place_of(left, makers[i].id);
    assert(left[n].id == makers[n + gone].id);
    assert(n + gone == i) by {
        reveal(unique_ids);
        if n + gone < i {
            assert(makers[n + gone].id != makers[i].id);
        } else if i < n + gone {
            assert(makers[i].id != makers[n + gone].id);
        }
    }
    assert(left[j - gone].id == makers[j].id);
    lemma_found(left, j - gone);
}

/// A sweep keeps the makers that it leaves in their order, and leaves every
/// maker behind one that it leaves.
pub proof fn lemma_sweep_order(taker: OrderView, makers: Seq<OrderView>, i: int, j: int)
    requires
        taker.valid(),
        queue_valid(makers, taker.side.spec_opposite()),
        unique_ids(makers),
        0 <= i < j < makers.len(),
        has_id(sweep(taker, makers).makers, makers[i].id),
    ensures
        has_id(sweep(taker, makers).makers, makers[j].id),
        place_of(sweep(taker, makers).makers, makers[i].id) < place_of(
            sweep(taker, makers).makers,
            makers[j].id,
        ),
{
    lemma_sweep_ids(taker, makers);
    lemma_suffix_order(sweep(taker, makers).makers, makers, i, j);
}

} // verus!
