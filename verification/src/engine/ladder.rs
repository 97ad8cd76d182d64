//! One side of the book as price levels: a vector of levels, best price
//! first, each with the queue of its identifiers.
use super::order_id::OrderId;
use crate::order_side::OrderSide;
use std::collections::VecDeque;
use vstd::prelude::*;

verus! {

/// One price level as contracts see it: a price and the identifiers queued
/// at it, earliest first.
pub struct LevelView {
    pub price: u64,
    pub ids: Seq<OrderId>,
}

/// One queued identifier together with the price of its level.
pub struct Entry {
    pub price: u64,
    pub id: OrderId,
}

/// `price` is strictly better than `other` on `side`: lower for asks, higher
/// for bids.
pub open spec fn better(side: OrderSide, price: u64, other: u64) -> bool {
    match side {
        OrderSide::Ask => price < other,
        OrderSide::Bid => price > other,
    }
}

/// A ladder is well formed when no level is empty and the levels stand in
/// strictly improving-to-worsening price order, best first.
pub open spec fn ladder_wf(levels: Seq<LevelView>, side: OrderSide) -> bool {
    &&& forall|i: int| 0 <= i < levels.len() ==> (#[trigger] levels[i]).ids.len() > 0
    &&& forall|i: int, j: int|
        #![trigger levels[i], levels[j]]
        0 <= i < j < levels.len() ==> better(side, levels[i].price, levels[j].price)
}

/// The entries of one level, in queue order.
pub open spec fn level_entries(level: LevelView) -> Seq<Entry> {
    Seq::new(level.ids.len(), |k: int| Entry { price: level.price, id: level.ids[k] })
}

/// All entries of a ladder in the order in which they are matched: level by
/// level from the best price, and within a level from the front of the queue.
pub open spec fn entries_of(levels: Seq<LevelView>) -> Seq<Entry>
    decreases levels.len(),
{
    if levels.len() == 0 {
        Seq::empty()
    } else {
        level_entries(levels[0]) + entries_of(levels.drop_first())
    }
}

/// How many leading entries keep their place before a newcomer at `price`:
/// those whose price the newcomer does not strictly improve on.
pub open spec fn rank(entries: Seq<Entry>, side: OrderSide, price: u64) -> int
    decreases entries.len(),
{
    if entries.len() == 0 || better(side, price, entries[0].price) {
        0
    } else {
        1 + rank(entries.drop_first(), side, price)
    }
}

/// Entries stand in price order: no entry has a strictly better price than
/// one before it.
pub open spec fn entries_sorted(entries: Seq<Entry>, side: OrderSide) -> bool {
    forall|m: int, n: int|
        #![trigger entries[m], entries[n]]
        0 <= m < n < entries.len() ==> !better(side, entries[n].price, entries[m].price)
}

/// Flattening distributes over concatenation of ladders.
pub proof fn lemma_entries_concat(a: Seq<LevelView>, b: Seq<LevelView>)
    ensures
        entries_of(a + b) == entries_of(a) + entries_of(b),
    decreases a.len(),
{
    if a.len() == 0 {
        assert(a + b =~= b);
        assert(entries_of(a) + entries_of(b) =~= entries_of(b));
    } else {
        lemma_entries_concat(a.drop_first(), b);
        assert((a + b).drop_first() =~= a.drop_first() + b);
        assert((a + b)[0] == a[0]);
        assert(entries_of(a + b) =~= entries_of(a) + entries_of(b));
    }
}

/// A ladder of one level flattens to that level's entries.
pub proof fn lemma_entries_single(level: LevelView)
    ensures
        entries_of(seq![level]) == level_entries(level),
{
    let one = seq![level];
    assert(one.drop_first() =~= Seq::<LevelView>::empty());
    assert(entries_of(one.drop_first()) =~= Seq::<Entry>::empty());
    assert(entries_of(one) =~= level_entries(level));
}

/// A ladder flattens to what precedes level `i`, then level `i`, then what
/// follows it.
pub proof fn lemma_entries_split(levels: Seq<LevelView>, i: int)
    requires
        0 <= i < levels.len(),
    ensures
        entries_of(levels) == entries_of(levels.take(i)) + level_entries(levels[i]) + entries_of(
            levels.skip(i + 1),
        ),
{
    let head = levels.take(i);
    let tail = levels.skip(i + 1);
    assert(levels =~= head + seq![levels[i]] + tail);
    lemma_entries_concat(head + seq![levels[i]], tail);
    lemma_entries_concat(head, seq![levels[i]]);
    lemma_entries_single(levels[i]);
}

/// Every entry of a flattened ladder comes from one of its levels.
pub proof fn lemma_entries_within(levels: Seq<LevelView>)
    ensures
        forall|n: int|
            0 <= n < entries_of(levels).len() ==> exists|i: int|
                0 <= i < levels.len() && (#[trigger] entries_of(levels)[n]).price == (
                #[trigger] levels[i]).price && levels[i].ids.contains(entries_of(levels)[n].id),
    decreases levels.len(),
{
    if levels.len() > 0 {
        let rest = levels.drop_first();
        lemma_entries_within(rest);
        let first = level_entries(levels[0]);
        assert forall|n: int| 0 <= n < entries_of(levels).len() implies exists|i: int|
            0 <= i < levels.len() && (#[trigger] entries_of(levels)[n]).price == (
            #[trigger] levels[i]).price && levels[i].ids.contains(entries_of(levels)[n].id) by {
            if n < first.len() {
                assert(entries_of(levels)[n] == first[n]);
                assert(levels[0].ids[n] == first[n].id);
                assert(levels[0].price == first[n].price);
            } else {
                let e = entries_of(rest)[n - first.len()];
                assert(entries_of(levels)[n] == e);
                let i = choose|i: int|
                    0 <= i < rest.len() && e.price == (#[trigger] rest[i]).price
                        && rest[i].ids.contains(e.id);
                assert(levels[i + 1] == rest[i]);
            }
        }
    }
}

/// The entries of a well-formed ladder stand in price order.
pub proof fn lemma_entries_sorted(levels: Seq<LevelView>, side: OrderSide)
    requires
        ladder_wf(levels, side),
    ensures
        entries_sorted(entries_of(levels), side),
    decreases levels.len(),
{
    if levels.len() > 0 {
        let rest = levels.drop_first();
        assert(ladder_wf(rest, side)) by {
            assert forall|i: int, j: int|
                #![trigger rest[i], rest[j]]
                0 <= i < j < rest.len() implies better(side, rest[i].price, rest[j].price) by {
                assert(rest[i] == levels[i + 1] && rest[j] == levels[j + 1]);
            }
            assert forall|i: int| 0 <= i < rest.len() implies (#[trigger] rest[i]).ids.len()
                > 0 by {
                assert(rest[i] == levels[i + 1]);
            }
        }
        lemma_entries_sorted(rest, side);
        lemma_entries_within(rest);
        let first = level_entries(levels[0]);
        let all = entries_of(levels);
        assert forall|m: int, n: int|
            #![trigger all[m], all[n]]
            0 <= m < n < all.len() implies !better(side, all[n].price, all[m].price) by {
            if n < first.len() {
                assert(all[m] == first[m] && all[n] == first[n]);
            } else if m < first.len() {
                let e = entries_of(rest)[n - first.len()];
                assert(all[n] == e);
                assert(all[m] == first[m]);
                let i = choose|i: int|
                    0 <= i < rest.len() && e.price == (#[trigger] rest[i]).price
                        && rest[i].ids.contains(e.id);
                assert(levels[i + 1] == rest[i]);
                assert(better(side, levels[0].price, levels[i + 1].price));
            } else {
                assert(all[m] == entries_of(rest)[m - first.len()]);
                assert(all[n] == entries_of(rest)[n - first.len()]);
            }
        }
    }
}

/// A rank is a place in the sequence or just past its end.
pub proof fn lemma_rank_bounds(entries: Seq<Entry>, side: OrderSide, price: u64)
    ensures
        0 <= rank(entries, side, price) <= entries.len(),
    decreases entries.len(),
{
    if entries.len() > 0 {
        lemma_rank_bounds(entries.drop_first(), side, price);
    }
}

/// The rank of a price is the one position that separates the entries it
/// does not improve on from those it does.
pub proof fn lemma_rank_at(entries: Seq<Entry>, side: OrderSide, price: u64, k: int)
    requires
        0 <= k <= entries.len(),
        forall|n: int| 0 <= n < k ==> !better(side, price, (#[trigger] entries[n]).price),
        k < entries.len() ==> better(side, price, entries[k].price),
    ensures
        rank(entries, side, price) == k,
    decreases entries.len(),
{
    if k > 0 {
        let rest = entries.drop_first();
        assert(!better(side, price, entries[0].price));
        assert forall|n: int| 0 <= n < k - 1 implies !better(
            side,
            price,
            (#[trigger] rest[n]).price,
        ) by {
            assert(rest[n] == entries[n + 1]);
        }
        if k < entries.len() {
            assert(rest[k - 1] == entries[k]);
        }
        lemma_rank_at(rest, side, price, k - 1);
    }
}

/// In a well-formed ladder every entry behind level `i` has a price strictly
/// worse than that of level `i`.
pub proof fn lemma_tail_is_worse(levels: Seq<LevelView>, side: OrderSide, i: int)
    requires
        ladder_wf(levels, side),
        0 <= i < levels.len(),
    ensures
        forall|n: int|
            0 <= n < entries_of(levels.skip(i + 1)).len() ==> better(
                side,
                levels[i].price,
                (#[trigger] entries_of(levels.skip(i + 1))[n]).price,
            ),
{
    let tail = levels.skip(i + 1);
    lemma_entries_within(tail);
    assert forall|n: int| 0 <= n < entries_of(tail).len() implies better(
        side,
        levels[i].price,
        (#[trigger] entries_of(tail)[n]).price,
    ) by {
        let e = entries_of(tail)[n];
        let j = choose|j: int| 0 <= j < tail.len() && e.price == (#[trigger] tail[j]).price;
        assert(tail[j] == levels[i + 1 + j]);
        assert(better(side, levels[i].price, levels[i + 1 + j].price));
    }
}

/// In a well-formed ladder every entry before level `i` has a price strictly
/// better than that of level `i`.
pub proof fn lemma_head_is_better(levels: Seq<LevelView>, side: OrderSide, i: int)
    requires
        ladder_wf(levels, side),
        0 <= i < levels.len(),
    ensures
        forall|n: int|
            0 <= n < entries_of(levels.take(i)).len() ==> better(
                side,
                (#[trigger] entries_of(levels.take(i))[n]).price,
                levels[i].price,
            ),
{
    let head = levels.take(i);
    lemma_entries_within(head);
    assert forall|n: int| 0 <= n < entries_of(head).len() implies better(
        side,
        (#[trigger] entries_of(head)[n]).price,
        levels[i].price,
    ) by {
        let e = entries_of(head)[n];
        let j = choose|j: int| 0 <= j < head.len() && e.price == (#[trigger] head[j]).price;
        assert(head[j] == levels[j]);
        assert(better(side, levels[j].price, levels[i].price));
    }
}

/// Queueing an identifier at the back of level `i` keeps the ladder well
/// formed and puts the new entry at the rank of that level's price.
pub proof fn lemma_queue_at(levels: Seq<LevelView>, side: OrderSide, i: int, id: OrderId)
    requires
        ladder_wf(levels, side),
        0 <= i < levels.len(),
    ensures
        ({
            let level = LevelView { price: levels[i].price, ids: levels[i].ids.push(id) };
            let after = levels.update(i, level);
            &&& ladder_wf(after, side)
            &&& entries_of(after) == entries_of(levels).insert(
                rank(entries_of(levels), side, levels[i].price),
                Entry { price: levels[i].price, id },
            )
        }),
{
    let price = levels[i].price;
    let entry = Entry { price, id };
    let level = LevelView { price, ids: levels[i].ids.push(id) };
    let after = levels.update(i, level);
    let head = entries_of(levels.take(i));
    let mid = level_entries(levels[i]);
    let tail = entries_of(levels.skip(i + 1));
    let all = entries_of(levels);
    let k: int = (head.len() + mid.len()) as int;
    lemma_entries_split(levels, i);
    assert(entries_of(after) =~= all.insert(k, entry)) by {
        lemma_entries_split(after, i);
        assert(after.take(i) =~= levels.take(i));
        assert(after.skip(i + 1) =~= levels.skip(i + 1));
        assert(level_entries(level) =~= mid.push(entry));
    }
    assert(rank(all, side, price) == k) by {
        lemma_head_is_better(levels, side, i);
        lemma_tail_is_worse(levels, side, i);
        assert forall|n: int| 0 <= n < k implies !better(side, price, (#[trigger] all[n]).price) by {
            if n < head.len() {
                assert(all[n] == head[n]);
            } else {
                assert(all[n] == mid[n - head.len()]);
            }
        }
        if k < all.len() {
            assert(all[k] == tail[0]);
        }
        lemma_rank_at(all, side, price, k);
    }
    assert(ladder_wf(after, side)) by {
        assert forall|a: int| 0 <= a < after.len() implies (#[trigger] after[a]).ids.len() > 0 by {
            if a != i {
                assert(after[a] == levels[a]);
            }
        }
        assert forall|a: int, b: int|
            #![trigger after[a], after[b]]
            0 <= a < b < after.len() implies better(side, after[a].price, after[b].price) by {
            assert(after[a].price == levels[a].price);
            assert(after[b].price == levels[b].price);
        }
    }
}

/// Opening a level for a price that has none, at the index that keeps the
/// prices in order, keeps the ladder well formed and puts the new entry at
/// the rank of its price.
pub proof fn lemma_open_level(
    levels: Seq<LevelView>,
    side: OrderSide,
    i: int,
    price: u64,
    id: OrderId,
)
    requires
        ladder_wf(levels, side),
        0 <= i <= levels.len(),
        forall|j: int| 0 <= j < i ==> better(side, (#[trigger] levels[j]).price, price),
        forall|j: int| i <= j < levels.len() ==> better(side, price, (#[trigger] levels[j]).price),
    ensures
        ({
            let after = levels.insert(i, LevelView { price, ids: seq![id] });
            &&& ladder_wf(after, side)
            &&& entries_of(after) == entries_of(levels).insert(
                rank(entries_of(levels), side, price),
                Entry { price, id },
            )
        }),
{
    let entry = Entry { price, id };
    let level = LevelView { price, ids: seq![id] };
    let after = levels.insert(i, level);
    let head = entries_of(levels.take(i));
    let tail = entries_of(levels.skip(i));
    let all = entries_of(levels);
    let k: int = head.len() as int;
    assert(all =~= head + tail) by {
        assert(levels =~= levels.take(i) + levels.skip(i));
        lemma_entries_concat(levels.take(i), levels.skip(i));
    }
    assert(entries_of(after) =~= all.insert(k, entry)) by {
        assert(after =~= levels.take(i) + seq![level] + levels.skip(i));
        lemma_entries_concat(levels.take(i) + seq![level], levels.skip(i));
        lemma_entries_concat(levels.take(i), seq![level]);
        lemma_entries_single(level);
        assert(level_entries(level) =~= seq![entry]);
    }
    assert(rank(all, side, price) == k) by {
        lemma_entries_within(levels.take(i));
        lemma_entries_within(levels.skip(i));
        assert forall|n: int| 0 <= n < k implies !better(side, price, (#[trigger] all[n]).price) by {
            assert(all[n] == head[n]);
            let j = choose|j: int|
                0 <= j < levels.take(i).len() && head[n].price == (#[trigger] levels.take(
                    i,
                )[j]).price;
            assert(levels.take(i)[j] == levels[j]);
        }
        if k < all.len() {
            assert(all[k] == tail[0]);
            let j = choose|j: int|
                0 <= j < levels.skip(i).len() && tail[0].price == (#[trigger] levels.skip(
                    i,
                )[j]).price;
            assert(levels.skip(i)[j] == levels[i + j]);
        }
        lemma_rank_at(all, side, price, k);
    }
    assert(ladder_wf(after, side)) by {
        assert forall|a: int| 0 <= a < after.len() implies (#[trigger] after[a]).ids.len() > 0 by {
            if a < i {
                assert(after[a] == levels[a]);
            } else if a > i {
                assert(after[a] == levels[a - 1]);
            }
        }
        assert forall|a: int, b: int|
            #![trigger after[a], after[b]]
            0 <= a < b < after.len() implies better(side, after[a].price, after[b].price) by {
            if a < i {
                assert(after[a] == levels[a]);
            } else if a > i {
                assert(after[a] == levels[a - 1]);
            }
            if b < i {
                assert(after[b] == levels[b]);
            } else if b > i {
                assert(after[b] == levels[b - 1]);
            }
            if a < i && b > i {
                assert(better(side, levels[a].price, levels[b - 1].price));
            }
        }
    }
}

/// Taking the identifier at place `j` out of level `i`, and the level with it
/// if that leaves it empty, keeps the ladder well formed and removes exactly
/// that entry.
pub proof fn lemma_remove_at(levels: Seq<LevelView>, side: OrderSide, i: int, j: int)
    requires
        ladder_wf(levels, side),
        0 <= i < levels.len(),
        0 <= j < levels[i].ids.len(),
    ensures
        ({
            let after = if levels[i].ids.len() == 1 {
                levels.remove(i)
            } else {
                levels.update(i, LevelView { price: levels[i].price, ids: levels[i].ids.remove(j) })
            };
            let k = entries_of(levels.take(i)).len() + j;
            &&& ladder_wf(after, side)
            &&& k < entries_of(levels).len()
            &&& entries_of(levels)[k] == (Entry { price: levels[i].price, id: levels[i].ids[j] })
            &&& entries_of(after) == entries_of(levels).remove(k)
        }),
{
    let price = levels[i].price;
    let head = entries_of(levels.take(i));
    let mid = level_entries(levels[i]);
    let tail = entries_of(levels.skip(i + 1));
    let all = entries_of(levels);
    let k: int = (head.len() + j) as int;
    lemma_entries_split(levels, i);
    assert(all[k] == mid[j]);
    if levels[i].ids.len() == 1 {
        let after = levels.remove(i);
        assert(entries_of(after) =~= all.remove(k)) by {
            assert(after =~= levels.take(i) + levels.skip(i + 1));
            lemma_entries_concat(levels.take(i), levels.skip(i + 1));
        }
        assert(ladder_wf(after, side)) by {
            assert forall|a: int| 0 <= a < after.len() implies (#[trigger] after[a]).ids.len()
                > 0 by {
                if a < i {
                    assert(after[a] == levels[a]);
                } else {
                    assert(after[a] == levels[a + 1]);
                }
            }
            assert forall|a: int, b: int|
                #![trigger after[a], after[b]]
                0 <= a < b < after.len() implies better(side, after[a].price, after[b].price) by {
                let a0 = if a < i {
                    a
                } else {
                    a + 1
                };
                let b0 = if b < i {
                    b
                } else {
                    b + 1
                };
                assert(after[a] == levels[a0] && after[b] == levels[b0]);
                assert(better(side, levels[a0].price, levels[b0].price));
            }
        }
    } else {
        let level = LevelView { price, ids: levels[i].ids.remove(j) };
        let after = levels.update(i, level);
        assert(entries_of(after) =~= all.remove(k)) by {
            lemma_entries_split(after, i);
            assert(after.take(i) =~= levels.take(i));
            assert(after.skip(i + 1) =~= levels.skip(i + 1));
            assert(level_entries(level) =~= mid.remove(j));
        }
        assert(ladder_wf(after, side)) by {
            assert forall|a: int| 0 <= a < after.len() implies (#[trigger] after[a]).ids.len()
                > 0 by {
                if a != i {
                    assert(after[a] == levels[a]);
                }
            }
            assert forall|a: int, b: int|
                #![trigger after[a], after[b]]
                0 <= a < b < after.len() implies better(side, after[a].price, after[b].price) by {
                assert(after[a].price == levels[a].price);
                assert(after[b].price == levels[b].price);
            }
        }
    }
}

/// An entry of a well-formed ladder whose price is that of level `i` sits in
/// level `i`: behind the entries of the levels before it, at its place in
/// that level's queue.
pub proof fn lemma_entry_place(levels: Seq<LevelView>, side: OrderSide, i: int, n: int)
    requires
        ladder_wf(levels, side),
        0 <= i < levels.len(),
        0 <= n < entries_of(levels).len(),
        entries_of(levels)[n].price == levels[i].price,
    ensures
        entries_of(levels.take(i)).len() <= n < entries_of(levels.take(i)).len()
            + levels[i].ids.len(),
        entries_of(levels)[n].id == levels[i].ids[n - entries_of(levels.take(i)).len()],
{
    let head = entries_of(levels.take(i));
    let mid = level_entries(levels[i]);
    let tail = entries_of(levels.skip(i + 1));
    let all = entries_of(levels);
    lemma_entries_split(levels, i);
    lemma_head_is_better(levels, side, i);
    lemma_tail_is_worse(levels, side, i);
    if n < head.len() {
        assert(all[n] == head[n]);
    } else if n >= head.len() + mid.len() {
        assert(all[n] == tail[n - head.len() - mid.len()]);
    } else {
        assert(all[n] == mid[n - head.len()]);
    }
}

/// The entries of the first `i` levels are a prefix of the ladder's entries,
/// and one more level adds that level's entries.
pub proof fn lemma_entries_prefix(levels: Seq<LevelView>, i: int)
    requires
        0 <= i < levels.len(),
    ensures
        entries_of(levels.take(i + 1)) == entries_of(levels.take(i)) + level_entries(levels[i]),
        entries_of(levels.take(i + 1)).len() <= entries_of(levels).len(),
{
    assert(levels.take(i + 1) =~= levels.take(i) + seq![levels[i]]);
    lemma_entries_concat(levels.take(i), seq![levels[i]]);
    lemma_entries_single(levels[i]);
    assert(levels =~= levels.take(i + 1) + levels.skip(i + 1));
    lemma_entries_concat(levels.take(i + 1), levels.skip(i + 1));
}

/// A price level: the identifiers queued at one price, earliest first.
pub(crate) struct Level {
    price: u64,
    queue: VecDeque<OrderId>,
}

impl View for Level {
    type V = LevelView;

    closed spec fn view(&self) -> LevelView {
        LevelView { price: self.price, ids: self.queue@ }
    }
}

/// One side of the book: its price levels, best price first.
pub(crate) struct Ladder {
    levels: Vec<Level>,
}

impl View for Ladder {
    type V = Seq<LevelView>;

    closed spec fn view(&self) -> Seq<LevelView> {
        Seq::new(self.levels@.len(), |i: int| self.levels@[i]@)
    }
}

impl Ladder {
    /// The ladder's entries in matching order.
    pub open spec fn entries(&self) -> Seq<Entry> {
        entries_of(self@)
    }

    /// An empty ladder.
    pub fn new() -> (ladder: Ladder)
        ensures
            ladder@ == Seq::<LevelView>::empty(),
    {
        let ladder = Ladder { levels: Vec::new() };
        assert(ladder@ =~= Seq::<LevelView>::empty());
        ladder
    }

    fn precedes(side: OrderSide, price: u64, other: u64) -> (b: bool)
        ensures
            b == better(side, price, other),
    {
        match side {
            OrderSide::Ask => price < other,
            OrderSide::Bid => price > other,
        }
    }

    /// The index of the level that holds `price`, or at which such a level
    /// would have to be put: the number of levels with a better price.
    fn slot(&self, side: OrderSide, price: u64) -> (i: usize)
        requires
            ladder_wf(self@, side),
        ensures
            i <= self@.len(),
            forall|j: int| 0 <= j < i ==> better(side, (#[trigger] self@[j]).price, price),
            forall|j: int| i <= j < self@.len() ==> !better(side, (#[trigger] self@[j]).price, price),
    {
        let mut lo: usize = 0;
        let mut hi: usize = self.levels.len();
        while lo < hi
            invariant
                ladder_wf(self@, side),
                lo <= hi <= self@.len(),
                self@.len() == self.levels@.len(),
                forall|j: int| 0 <= j < lo ==> better(side, (#[trigger] self@[j]).price, price),
                forall|j: int|
                    hi <= j < self@.len() ==> !better(side, (#[trigger] self@[j]).price, price),
            decreases hi - lo,
        {
            let mid: usize = lo + (hi - lo) / 2;
            assert(self@[mid as int].price == self.levels@[mid as int].price);
            if Self::precedes(side, self.levels[mid].price, price) {
                assert forall|j: int| 0 <= j < mid + 1 implies better(
                    side,
                    (#[trigger] self@[j]).price,
                    price,
                ) by {
                    if j < mid {
                        assert(better(side, self@[j].price, self@[mid as int].price));
                    }
                }
                lo = mid + 1;
            } else {
                assert forall|j: int| mid <= j < self@.len() implies !better(
                    side,
                    (#[trigger] self@[j]).price,
                    price,
                ) by {
                    if mid < j {
                        assert(better(side, self@[mid as int].price, self@[j].price));
                    }
                }
                hi = mid;
            }
        }
        lo
    }

    /// The identifier that is matched first: the front of the best level.
    pub fn front(&self, Ghost(side): Ghost<OrderSide>) -> (id: Option<OrderId>)
        requires
            ladder_wf(self@, side),
        ensures
            id == if self.entries().len() > 0 {
                Some(self.entries()[0].id)
            } else {
                None
            },
    {
        if self.levels.len() == 0 {
            None
        } else {
            assert(self@[0].ids.len() > 0);
            assert(self@[0] == self.levels@[0]@);
            assert(self.entries()[0] == level_entries(self@[0])[0]);
            Some(self.levels[0].queue[0])
        }
    }

    /// Queues `id` at `price`, behind every identifier already queued at
    /// that price: at the back of its level, which is made if there is none.
    pub fn push(&mut self, side: OrderSide, price: u64, id: OrderId)
        requires
            ladder_wf(old(self)@, side),
        ensures
            ladder_wf(final(self)@, side),
            final(self).entries() == old(self).entries().insert(
                rank(old(self).entries(), side, price),
                Entry { price, id },
            ),
    {
        let i = self.slot(side, price);
        let ghost before = self@;
        if i < self.levels.len() && self.levels[i].price == price {
            assert(before[i as int] == self.levels@[i as int]@);
            self.levels[i].queue.push_back(id);
            proof {
                let level = LevelView { price, ids: before[i as int].ids.push(id) };
                assert(self.levels@[i as int]@ == level);
                assert(self@ =~= before.update(i as int, level));
                lemma_queue_at(before, side, i as int, id);
            }
        } else {
            let mut queue: VecDeque<OrderId> = VecDeque::with_capacity(8);
            queue.push_back(id);
            self.levels.insert(i, Level { price, queue });
            proof {
                let level = LevelView { price, ids: seq![id] };
                assert(self.levels@[i as int]@ == level);
                assert(self@ =~= before.insert(i as int, level));
                assert forall|j: int| i <= j < before.len() implies better(
                    side,
                    price,
                    (#[trigger] before[j]).price,
                ) by {
                    if j > i {
                        assert(better(side, before[i as int].price, before[j].price));
                    } else {
                        assert(before[i as int] == old(self).levels@[i as int]@);
                    }
                }
                lemma_open_level(before, side, i as int, price, id);
            }
        }
    }

    /// Takes out the identifier that is matched first, and its level with it
    /// if that leaves the level empty.
    pub fn pop(&mut self, Ghost(side): Ghost<OrderSide>) -> (id: Option<OrderId>)
        requires
            ladder_wf(old(self)@, side),
        ensures
            ladder_wf(final(self)@, side),
            match id {
                Some(id) => old(self).entries().len() > 0 && id == old(self).entries()[0].id
                    && final(self).entries() == old(self).entries().drop_first(),
                None => old(self).entries().len() == 0 && final(self)@ == old(self)@,
            },
    {
        if self.levels.len() == 0 {
            return None;
        }
        let ghost before = self@;
        proof {
            assert(before[0] == self.levels@[0]@);
            assert(before.take(0) =~= Seq::<LevelView>::empty());
            lemma_remove_at(before, side, 0, 0);
            assert(self.entries().remove(0) =~= self.entries().drop_first());
        }
        if self.levels[0].queue.len() == 1 {
            let mut level = self.levels.remove(0);
            assert(self@ =~= before.remove(0));
            level.queue.pop_front()
        } else {
            let id = self.levels[0].queue.pop_front();
            proof {
                let level = LevelView { price: before[0].price, ids: before[0].ids.remove(0) };
                assert(before[0].ids.remove(0) =~= before[0].ids.subrange(
                    1,
                    before[0].ids.len() as int,
                ));
                assert(self.levels@[0]@ == level);
                assert(self@ =~= before.update(0, level));
            }
            id
        }
    }

    /// Takes `id` out of the level at `price`, and the level with it if that
    /// leaves it empty. Returns whether `id` was queued there, and the place
    /// its entry had.
    pub fn remove(&mut self, side: OrderSide, price: u64, id: OrderId) -> (found: (
        bool,
        Ghost<int>,
    ))
        requires
            ladder_wf(old(self)@, side),
        ensures
            ladder_wf(final(self)@, side),
            found.0 == old(self).entries().contains(Entry { price, id }),
            found.0 ==> {
                &&& 0 <= found.1@ < old(self).entries().len()
                &&& old(self).entries()[found.1@] == (Entry { price, id })
                &&& forall|n: int|
                    0 <= n < found.1@ ==> (#[trigger] old(self).entries()[n]) != (Entry {
                        price,
                        id,
                    })
                &&& final(self).entries() == old(self).entries().remove(found.1@)
            },
            !found.0 ==> final(self)@ == old(self)@,
    {
        let ghost before = self@;
        let ghost entry = Entry { price, id };
        let i = self.slot(side, price);
        if i >= self.levels.len() || self.levels[i].price != price {
            proof {
                if i < before.len() {
                    assert(before[i as int] == self.levels@[i as int]@);
                }
                lemma_entries_within(before);
                assert forall|n: int| 0 <= n < entries_of(before).len() implies (
                #[trigger] entries_of(before)[n]) != entry by {
                    let e = entries_of(before)[n];
                    let l = choose|l: int|
                        0 <= l < before.len() && e.price == (#[trigger] before[l]).price;
                    if l > i {
                        assert(better(side, before[i as int].price, before[l].price));
                    }
                }
            }
            return (false, Ghost(0));
        }
        assert(before[i as int] == self.levels@[i as int]@);
        let n = self.levels[i].queue.len();
        let mut j: usize = 0;
        while j < n && self.levels[i].queue[j] != id
            invariant
                j <= n,
                i < self.levels@.len(),
                n == self.levels@[i as int].queue@.len(),
                before[i as int] == self.levels@[i as int]@,
                forall|q: int| 0 <= q < j ==> #[trigger] before[i as int].ids[q] != id,
            decreases n - j,
        {
            j = j + 1;
        }
        let ghost head_len = entries_of(before.take(i as int)).len() as int;
        if j == n {
            proof {
                assert forall|m: int| 0 <= m < entries_of(before).len() implies (
                #[trigger] entries_of(before)[m]) != entry by {
                    if entries_of(before)[m].price == price {
                        lemma_entry_place(before, side, i as int, m);
                        assert(before[i as int].ids[m - head_len] != id);
                    }
                }
            }
            return (false, Ghost(0));
        }
        proof {
            lemma_remove_at(before, side, i as int, j as int);
            assert forall|m: int| 0 <= m < head_len + j implies (#[trigger] entries_of(
                before,
            )[m]) != entry by {
                if entries_of(before)[m].price == price {
                    lemma_entry_place(before, side, i as int, m);
                    assert(before[i as int].ids[m - head_len] != id);
                }
            }
        }
        if n == 1 {
            self.levels.remove(i);
            assert(self@ =~= before.remove(i as int));
        } else {
            self.levels[i].queue.remove(j);
            proof {
                let level = LevelView { price, ids: before[i as int].ids.remove(j as int) };
                assert(self.levels@[i as int]@ == level);
                assert(self@ =~= before.update(i as int, level));
            }
        }
        (true, Ghost(head_len + j))
    }

    /// The number of identifiers queued over all levels.
    pub fn len(&self) -> (count: usize)
        requires
            self.entries().len() <= usize::MAX,
        ensures
            count == self.entries().len(),
    {
        let mut count: usize = 0;
        let mut i: usize = 0;
        assert(self@.take(0) =~= Seq::<LevelView>::empty());
        while i < self.levels.len()
            invariant
                i <= self.levels@.len(),
                self@.len() == self.levels@.len(),
                self.entries().len() <= usize::MAX,
                count == entries_of(self@.take(i as int)).len(),
            decreases self.levels@.len() - i,
        {
            proof {
                lemma_entries_prefix(self@, i as int);
                assert(self@[i as int] == self.levels@[i as int]@);
            }
            count = count + self.levels[i].queue.len();
            i = i + 1;
        }
        assert(self@.take(i as int) =~= self@);
        count
    }
}

} // verus!
