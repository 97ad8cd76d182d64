//! Facts about one queue of resting orders: finding an order, putting one in
//! by priority, taking one out.
use super::book::{enqueue, has_id, place_of, priority_rank, queue_valid, unique_ids, without};
use super::ladder::better;
use super::order::OrderView;
use super::order_id::OrderId;
use crate::order_side::OrderSide;
use vstd::prelude::*;

verus! {

/// In a queue without repeated identifiers an identifier is found at the
/// one place where it stands.
pub proof fn lemma_found(queue: Seq<OrderView>, n: int)
    requires
        unique_ids(queue),
        0 <= n < queue.len(),
    ensures
        has_id(queue, queue[n].id),
        place_of(queue, queue[n].id) == n,
{
    reveal(unique_ids);
    let id = queue[n].id;
    let k = place_of(queue, id);
    if k < n {
        assert(queue[k].id != queue[n].id);
    } else if n < k {
        assert(queue[n].id != queue[k].id);
    }
}

/// An identifier that no order of a queue has is not found in it, and the
/// other way round.
pub proof fn lemma_absent(queue: Seq<OrderView>, id: OrderId)
    ensures
        !has_id(queue, id) <==> forall|n: int| 0 <= n < queue.len() ==> (#[trigger] queue[n]).id != id,
{
    if !has_id(queue, id) {
        assert forall|n: int| 0 <= n < queue.len() implies (#[trigger] queue[n]).id != id by {
            if queue[n].id == id {
                assert(has_id(queue, id));
            }
        }
    }
}

/// The orders behind the first of a valid queue form a valid queue.
pub proof fn lemma_queue_tail(queue: Seq<OrderView>, side: OrderSide)
    requires
        queue_valid(queue, side),
        queue.len() > 0,
    ensures
        queue_valid(queue.drop_first(), side),
{
    reveal(queue_valid);
    let rest = queue.drop_first();
    assert forall|n: int| 0 <= n < rest.len() implies (#[trigger] rest[n]).side == side
        && rest[n].is_live() by {
        assert(rest[n] == queue[n + 1]);
    }
    assert forall|m: int, n: int|
        #![trigger rest[m], rest[n]]
        0 <= m < n < rest.len() implies !better(side, rest[n].limit_price, rest[m].limit_price) by {
        assert(rest[m] == queue[m + 1] && rest[n] == queue[n + 1]);
    }
}

/// The rank of an order in a queue is a place in it or just past its end;
/// the order improves on no price before that place and on the price at it.
pub proof fn lemma_priority_rank(queue: Seq<OrderView>, order: OrderView)
    ensures
        0 <= priority_rank(queue, order) <= queue.len(),
        forall|n: int|
            0 <= n < priority_rank(queue, order) ==> !better(
                order.side,
                order.limit_price,
                (#[trigger] queue[n]).limit_price,
            ),
        priority_rank(queue, order) < queue.len() ==> better(
            order.side,
            order.limit_price,
            queue[priority_rank(queue, order)].limit_price,
        ),
    decreases queue.len(),
{
    if queue.len() > 0 && !better(order.side, order.limit_price, queue[0].limit_price) {
        let rest = queue.drop_first();
        lemma_priority_rank(rest, order);
        let k = priority_rank(queue, order);
        assert forall|n: int| 0 <= n < k implies !better(
            order.side,
            order.limit_price,
            (#[trigger] queue[n]).limit_price,
        ) by {
            if n > 0 {
                assert(queue[n] == rest[n - 1]);
            }
        }
        if k < queue.len() {
            assert(queue[k] == rest[k - 1]);
        }
    }
}

/// The first order of a queue after an order was put in by priority is the
/// old first order or the new order.
pub proof fn lemma_enqueue_front(queue: Seq<OrderView>, order: OrderView)
    ensures
        enqueue(queue, order).len() == queue.len() + 1,
        enqueue(queue, order)[0] == order || (queue.len() > 0 && enqueue(queue, order)[0]
            == queue[0] && !better(order.side, order.limit_price, queue[0].limit_price)),
{
    lemma_priority_rank(queue, order);
}

/// Where the orders of a queue stand after an order was put in by priority:
/// the new order at its rank, each old order at its old place or one
/// further back.
pub proof fn lemma_enqueue_place(queue: Seq<OrderView>, order: OrderView, p: int)
    requires
        0 <= p < queue.len(),
    ensures
        0 <= priority_rank(queue, order) <= queue.len(),
        enqueue(queue, order).len() == queue.len() + 1,
        enqueue(queue, order)[priority_rank(queue, order)] == order,
        enqueue(queue, order)[if p < priority_rank(queue, order) {
            p
        } else {
            p + 1
        }] == queue[p],
{
    lemma_priority_rank(queue, order);
}

/// Putting a live order of the right side into a valid queue by priority
/// gives a valid queue.
pub proof fn lemma_enqueue_valid(queue: Seq<OrderView>, order: OrderView)
    requires
        queue_valid(queue, order.side),
        order.is_live(),
    ensures
        queue_valid(enqueue(queue, order), order.side),
{
    reveal(queue_valid);
    lemma_priority_rank(queue, order);
    let k = priority_rank(queue, order);
    let after = enqueue(queue, order);
    let side = order.side;
    assert forall|n: int| 0 <= n < after.len() implies (#[trigger] after[n]).side == side
        && after[n].is_live() by {
        if n < k {
            assert(after[n] == queue[n]);
        } else if n > k {
            assert(after[n] == queue[n - 1]);
        }
    }
    assert forall|m: int, n: int|
        #![trigger after[m], after[n]]
        0 <= m < n < after.len() implies !better(side, after[n].limit_price, after[m].limit_price) by {
        if n < k {
            assert(after[m] == queue[m] && after[n] == queue[n]);
        } else if n == k {
            assert(after[m] == queue[m]);
        } else if m < k {
            assert(after[m] == queue[m] && after[n] == queue[n - 1]);
        } else if m == k {
            assert(after[n] == queue[n - 1]);
            assert(better(side, order.limit_price, queue[k].limit_price));
            if n - 1 > k {
                assert(!better(side, queue[n - 1].limit_price, queue[k].limit_price));
            }
        } else {
            assert(after[m] == queue[m - 1] && after[n] == queue[n - 1]);
        }
    }
}

/// Putting an order with a fresh identifier into a queue without repeated
/// identifiers gives such a queue again, made of the old orders and the new
/// one.
pub proof fn lemma_enqueue_ids(queue: Seq<OrderView>, order: OrderView)
    requires
        unique_ids(queue),
        !has_id(queue, order.id),
    ensures
        unique_ids(enqueue(queue, order)),
        forall|n: int|
            0 <= n < enqueue(queue, order).len() ==> (#[trigger] enqueue(queue, order)[n])
                == order || queue.contains(enqueue(queue, order)[n]),
{
    reveal(unique_ids);
    lemma_priority_rank(queue, order);
    lemma_absent(queue, order.id);
    let k = priority_rank(queue, order);
    let after = enqueue(queue, order);
    assert forall|n: int| 0 <= n < after.len() implies (#[trigger] after[n]) == order
        || queue.contains(after[n]) by {
        if n < k {
            assert(after[n] == queue[n]);
        } else if n > k {
            assert(after[n] == queue[n - 1]);
        }
    }
    assert forall|m: int, n: int|
        #![trigger after[m], after[n]]
        0 <= m < n < after.len() implies after[m].id != after[n].id by {
        let m0 = if m < k {
            m
        } else {
            m - 1
        };
        let n0 = if n < k {
            n
        } else {
            n - 1
        };
        if m != k {
            assert(after[m] == queue[m0]);
        }
        if n != k {
            assert(after[n] == queue[n0]);
        }
        if m != k && n != k {
            assert(queue[m0].id != queue[n0].id);
        }
    }
}

/// Time priority at arrival: an order that is put to rest stands behind
/// every resting order of its side whose price it does not improve on, so
/// behind every one with the same limit price; the resting orders keep
/// their order.
pub proof fn lemma_rests_behind(queue: Seq<OrderView>, order: OrderView, n: int)
    requires
        queue_valid(queue, order.side),
        0 <= n < queue.len(),
        !better(order.side, order.limit_price, queue[n].limit_price),
    ensures
        n < priority_rank(queue, order),
        enqueue(queue, order)[n] == queue[n],
        enqueue(queue, order)[priority_rank(queue, order)] == order,
{
    reveal(queue_valid);
    lemma_priority_rank(queue, order);
    let k = priority_rank(queue, order);
    if k <= n {
        assert(better(order.side, order.limit_price, queue[k].limit_price));
        if k < n {
            assert(!better(order.side, queue[n].limit_price, queue[k].limit_price));
        }
    }
}

/// Taking an identifier out of a valid queue leaves a valid queue whose
/// first order has no better price than the old first order.
pub proof fn lemma_without(queue: Seq<OrderView>, side: OrderSide, id: OrderId)
    requires
        queue_valid(queue, side),
    ensures
        queue_valid(without(queue, id), side),
        without(queue, id).len() <= queue.len(),
        without(queue, id).len() > 0 ==> !better(
            side,
            without(queue, id)[0].limit_price,
            queue[0].limit_price,
        ),
{
    reveal(queue_valid);
    let after = without(queue, id);
    if has_id(queue, id) {
        let k = place_of(queue, id);
        assert forall|n: int| 0 <= n < after.len() implies (#[trigger] after[n]).side == side
            && after[n].is_live() by {
            if n < k {
                assert(after[n] == queue[n]);
            } else {
                assert(after[n] == queue[n + 1]);
            }
        }
        assert forall|m: int, n: int|
            #![trigger after[m], after[n]]
            0 <= m < n < after.len() implies !better(side, after[n].limit_price, after[m].limit_price) by {
            let m0 = if m < k {
                m
            } else {
                m + 1
            };
            let n0 = if n < k {
                n
            } else {
                n + 1
            };
            assert(after[m] == queue[m0] && after[n] == queue[n0]);
            assert(!better(side, queue[n0].limit_price, queue[m0].limit_price));
        }
        if after.len() > 0 {
            if k == 0 {
                assert(after[0] == queue[1]);
                assert(!better(side, queue[1].limit_price, queue[0].limit_price));
            } else {
                assert(after[0] == queue[0]);
            }
        }
    }
}

/// Taking an identifier out of a queue without repeated identifiers leaves
/// a queue without repeated identifiers that no longer has it, made of
/// the other orders of the old queue.
pub proof fn lemma_without_ids(queue: Seq<OrderView>, id: OrderId)
    requires
        unique_ids(queue),
    ensures
        unique_ids(without(queue, id)),
        !has_id(without(queue, id), id),
        forall|n: int|
            0 <= n < without(queue, id).len() ==> queue.contains(#[trigger] without(queue, id)[n]),
        forall|m: int|
            0 <= m < queue.len() && (#[trigger] queue[m]).id != id ==> without(queue, id).contains(
                queue[m],
            ),
{
    reveal(unique_ids);
    let after = without(queue, id);
    if has_id(queue, id) {
        let k = place_of(queue, id);
        assert forall|n: int| 0 <= n < after.len() implies queue.contains(#[trigger] after[n])
            && after[n].id != id by {
            let n0 = if n < k {
                n
            } else {
                n + 1
            };
            assert(after[n] == queue[n0]);
            if n0 < k {
                assert(queue[n0].id != queue[k].id);
            } else {
                assert(queue[k].id != queue[n0].id);
            }
        }
        assert forall|m: int, n: int|
            #![trigger after[m], after[n]]
            0 <= m < n < after.len() implies after[m].id != after[n].id by {
            let m0 = if m < k {
                m
            } else {
                m + 1
            };
            let n0 = if n < k {
                n
            } else {
                n + 1
            };
            assert(after[m] == queue[m0] && after[n] == queue[n0]);
            assert(queue[m0].id != queue[n0].id);
        }
        assert forall|m: int| 0 <= m < queue.len() && (#[trigger] queue[m]).id != id implies after.contains(
            queue[m],
        ) by {
            if m < k {
                assert(after[m] == queue[m]);
            } else {
                assert(after[m - 1] == queue[m]);
            }
        }
        lemma_absent(after, id);
    } else {
        lemma_absent(queue, id);
        assert forall|n: int| 0 <= n < after.len() implies queue.contains(#[trigger] after[n]) by {
            assert(after[n] == queue[n]);
        }
        assert forall|m: int| 0 <= m < queue.len() && (#[trigger] queue[m]).id != id implies after.contains(
            queue[m],
        ) by {
            assert(after[m] == queue[m]);
        }
    }
}

/// Putting an order into a queue keeps the old orders in their order.
pub proof fn lemma_enqueue_order(queue: Seq<OrderView>, order: OrderView, i: int, j: int)
    requires
        unique_ids(queue),
        !has_id(queue, order.id),
        0 <= i < j < queue.len(),
    ensures
        has_id(enqueue(queue, order), queue[i].id),
        has_id(enqueue(queue, order), queue[j].id),
        place_of(enqueue(queue, order), queue[i].id) < place_of(enqueue(queue, order), queue[j].id),
{
    let after = enqueue(queue, order);
    let k = priority_rank(queue, order);
    lemma_enqueue_place(queue, order, i);
    lemma_enqueue_place(queue, order, j);
    lemma_enqueue_ids(queue, order);
    let first = if i < k {
        i
    } else {
        i + 1
    };
    let second = if j < k {
        j
    } else {
        j + 1
    };
    assert(after[first] == queue[i] && after[second] == queue[j]);
    lemma_found(after, first);
    lemma_found(after, second);
}

/// Taking an identifier out of a queue keeps the other orders in their
/// order.
pub proof fn lemma_without_order(queue: Seq<OrderView>, id: OrderId, i: int, j: int)
    requires
        unique_ids(queue),
        0 <= i < j < queue.len(),
        queue[i].id != id,
        queue[j].id != id,
    ensures
        has_id(without(queue, id), queue[i].id),
        has_id(without(queue, id), queue[j].id),
        place_of(without(queue, id), queue[i].id) < place_of(without(queue, id), queue[j].id),
{
    let after = without(queue, id);
    lemma_without_ids(queue, id);
    let k = if has_id(queue, id) {
        place_of(queue, id)
    } else {
        queue.len() as int
    };
    let first = if i < k {
        i
    } else {
        i - 1
    };
    let second = if j < k {
        j
    } else {
        j - 1
    };
    assert(after[first] == queue[i] && after[second] == queue[j]);
    lemma_found(after, first);
    lemma_found(after, second);
}

} // verus!
