//! Histories: what holds after any sequence of commands.
use super::book::{admissible, disjoint_ids, queue_valid, unique_ids, BookView, Command, Outcome};
use super::laws::{
    lemma_evolves_on, lemma_resting_live, lemma_step_fills, lemma_step_uncrossed, lemma_step_valid,
};
use super::order::OrderView;
use super::order_id::OrderId;
use super::sweeping::{lemma_volume_concat, traded_volume};
use vstd::prelude::*;

verus! {

/// A history: the book and all events after the commands have been
/// processed one after the other, starting from `book`.
pub open spec fn run(book: BookView, commands: Seq<Command>) -> Outcome
    decreases commands.len(),
{
    if commands.len() == 0 {
        Outcome { book, events: Seq::empty() }
    } else {
        let before = run(book, commands.drop_last());
        let last = before.book.step(commands.last());
        Outcome { book: last.book, events: before.events + last.events }
    }
}

/// Every command of the history is admissible when its turn comes.
pub open spec fn runnable(book: BookView, commands: Seq<Command>) -> bool
    decreases commands.len(),
{
    commands.len() == 0 || (runnable(book, commands.drop_last()) && admissible(
        run(book, commands.drop_last()).book,
        commands.last(),
    ))
}

/// `command` creates an order with the identifier `id`.
pub open spec fn creates(command: Command, id: OrderId) -> bool {
    command matches Command::Create(order) && order.id == id
}

/// How many commands of a history create an order with the identifier `id`.
pub open spec fn creations(commands: Seq<Command>, id: OrderId) -> nat
    decreases commands.len(),
{
    if commands.len() == 0 {
        0
    } else {
        creations(commands.drop_last(), id) + if creates(commands.last(), id) {
            1nat
        } else {
            0nat
        }
    }
}

/// The order with the identifier `id` as the history last created it.
pub open spec fn created(commands: Seq<Command>, id: OrderId) -> OrderView
    decreases commands.len(),
{
    if commands.len() > 0 && !creates(commands.last(), id) {
        created(commands.drop_last(), id)
    } else {
        commands.last()->Create_0
    }
}

/// Every book that a history of admissible commands leads to from the
/// empty book is valid and not crossed: the best ask stands strictly above
/// the best bid.
pub proof fn lemma_run_valid(commands: Seq<Command>)
    requires
        runnable(BookView::empty(), commands),
    ensures
        run(BookView::empty(), commands).book.valid(),
        !run(BookView::empty(), commands).book.crossed(),
    decreases commands.len(),
{
    if commands.len() == 0 {
        reveal(queue_valid);
        reveal(unique_ids);
        reveal(super::book::disjoint_ids);
    } else {
        lemma_run_valid(commands.drop_last());
        let before = run(BookView::empty(), commands.drop_last()).book;
        lemma_step_valid(before, commands.last());
        lemma_step_uncrossed(before, commands.last());
    }
}

/// How a history stands to one identifier that it creates at most once.
///
/// Before the order is created nothing is traded on the identifier and no
/// order with it rests. From then on what the history has traded on it is
/// what the order has been filled by, never beyond its amount, and while
/// the order rests its fill is the book's record of that.
pub proof fn lemma_history_of(commands: Seq<Command>, id: OrderId)
    requires
        runnable(BookView::empty(), commands),
        creations(commands, id) <= 1,
    ensures
        ({
            let now = run(BookView::empty(), commands);
            let traded = traded_volume(now.events, id);
            let order = created(commands, id);
            &&& creations(commands, id) == 0 ==> traded == 0 && !now.book.contains(id)
            &&& creations(commands, id) == 1 ==> {
                &&& order.id == id
                &&& order.filled + traded <= order.amount
                &&& now.book.contains(id) ==> {
                    &&& order.evolves_to(now.book.order(id))
                    &&& now.book.order(id).filled == order.filled + traded
                }
            }
        }),
    decreases commands.len(),
{
    let start = BookView::empty();
    if commands.len() == 0 {
        assert(!start.contains(id));
    } else {
        let earlier = commands.drop_last();
        let last = commands.last();
        let before = run(start, earlier);
        let step = before.book.step(last);
        lemma_history_of(earlier, id);
        lemma_run_valid(earlier);
        lemma_step_fills(before.book, last, id);
        lemma_volume_concat(before.events, step.events, id);
        if creations(earlier, id) == 1 && before.book.contains(id) && step.book.contains(id) {
            lemma_evolves_on(created(earlier, id), before.book.order(id), step.book.order(id));
            lemma_step_valid(before.book, last);
            lemma_resting_live(step.book, id);
        }
    }
}

/// Conservation: over a whole history that starts from the empty book and
/// creates an identifier once, what is traded on that identifier, as taker
/// or as maker, never exceeds what was left of the order's amount when it
/// was created.
pub proof fn lemma_conservation(commands: Seq<Command>, id: OrderId)
    requires
        runnable(BookView::empty(), commands),
        creations(commands, id) == 1,
    ensures
        created(commands, id).filled + traded_volume(run(BookView::empty(), commands).events, id)
            <= created(commands, id).amount,
{
    lemma_history_of(commands, id);
}

} // verus!
