use orderbook::engine::{Event, Order, OrderId, OrderStatus, Orderbook, Trade};
use orderbook::OrderSide;

fn ask(id: u64, price: u64, amount: u64) -> Order {
    Order::new(OrderId::new(id), 1, OrderSide::Ask, price, amount)
}

fn bid(id: u64, price: u64, amount: u64) -> Order {
    Order::new(OrderId::new(id), 2, OrderSide::Bid, price, amount)
}

fn traded(taker: u64, maker: u64, amount: u64, price: u64) -> Event {
    Event::Traded(Trade { taker: OrderId::new(taker), maker: OrderId::new(maker), amount, price })
}

#[test]
fn orderbook() {
    let mut orderbook = Orderbook::new("BTC/USDC");

    assert_eq!(orderbook.matching(ask(1, 500000, 150)).len(), 1);
    assert_eq!(orderbook.matching(bid(2, 500000, 150)).len(), 1);
    assert_eq!(orderbook.matching(ask(3, 500000, 100)).len(), 1);
    assert_eq!(orderbook.matching(bid(4, 500000, 150)).len(), 2);
    assert_eq!(orderbook.matching(ask(5, 500000, 25)).len(), 1);
    assert_eq!(orderbook.matching(ask(6, 500000, 50)).len(), 2);
}

#[test]
fn a_new_book_is_empty() {
    let book = Orderbook::new("BTC/USDC");
    assert_eq!(book.len(), (0, 0));
    assert!(book.is_empty());
    assert_eq!(book.spread(), None);
    assert!(book.peek(&OrderSide::Ask).is_none());
    assert!(book.peek(&OrderSide::Bid).is_none());
    assert!(!book.contains(&OrderId::new(1)));
}

#[test]
fn insert_keeps_the_order_and_its_place() {
    let mut book = Orderbook::new("BTC/USDC");
    book.insert(ask(1, 500, 10));
    assert!(book.contains(&OrderId::new(1)));
    assert!(!book.contains(&OrderId::new(2)));
    assert_eq!(book.len(), (1, 0));
    assert!(!book.is_empty());
    let first = book.peek(&OrderSide::Ask).unwrap();
    assert_eq!(first.id(), OrderId::new(1));
    assert_eq!(first.limit_price(), 500);
    assert_eq!(first.remaining(), 10);
    assert!(book.peek(&OrderSide::Bid).is_none());
}

#[test]
fn best_ask_is_the_lowest_and_best_bid_the_highest() {
    let mut book = Orderbook::new("BTC/USDC");
    book.insert(ask(1, 520, 10));
    book.insert(ask(2, 510, 10));
    book.insert(ask(3, 530, 10));
    book.insert(bid(4, 480, 10));
    book.insert(bid(5, 490, 10));
    book.insert(bid(6, 470, 10));
    assert_eq!(book.peek(&OrderSide::Ask).unwrap().id(), OrderId::new(2));
    assert_eq!(book.peek(&OrderSide::Bid).unwrap().id(), OrderId::new(5));
    assert_eq!(book.spread(), Some((510, 490)));
    assert_eq!(book.len(), (3, 3));
}

#[test]
fn pop_takes_orders_by_price_then_arrival() {
    let mut book = Orderbook::new("BTC/USDC");
    book.insert(ask(1, 520, 10));
    book.insert(ask(2, 510, 10));
    book.insert(ask(3, 510, 10));
    book.insert(ask(4, 500, 10));
    book.insert(ask(5, 520, 10));
    let mut seen = Vec::new();
    while let Some(order) = book.pop(&OrderSide::Ask) {
        seen.push(order.id());
    }
    assert_eq!(
        seen,
        vec![OrderId::new(4), OrderId::new(2), OrderId::new(3), OrderId::new(1), OrderId::new(5)]
    );
    assert_eq!(book.len(), (0, 0));
    assert!(book.pop(&OrderSide::Ask).is_none());
    assert!(!book.contains(&OrderId::new(4)));
}

#[test]
fn pop_takes_bids_from_the_highest_price_down() {
    let mut book = Orderbook::new("BTC/USDC");
    book.insert(bid(1, 480, 10));
    book.insert(bid(2, 490, 10));
    book.insert(bid(3, 490, 10));
    book.insert(bid(4, 500, 10));
    let mut seen = Vec::new();
    while let Some(order) = book.pop(&OrderSide::Bid) {
        seen.push(order.id());
    }
    assert_eq!(seen, vec![OrderId::new(4), OrderId::new(2), OrderId::new(3), OrderId::new(1)]);
}

#[test]
fn remove_cancels_and_returns_the_order() {
    let mut book = Orderbook::new("BTC/USDC");
    book.insert(ask(1, 500, 10));
    book.insert(ask(2, 500, 10));
    book.insert(ask(3, 500, 10));
    let removed = book.remove(&OrderId::new(2)).unwrap();
    assert_eq!(removed.id(), OrderId::new(2));
    assert_eq!(removed.status(), OrderStatus::Cancelled);
    assert!(removed.is_closed());
    assert!(!book.contains(&OrderId::new(2)));
    assert_eq!(book.len(), (2, 0));
    assert_eq!(book.pop(&OrderSide::Ask).unwrap().id(), OrderId::new(1));
    assert_eq!(book.pop(&OrderSide::Ask).unwrap().id(), OrderId::new(3));
}

#[test]
fn remove_of_a_partly_filled_order_closes_it() {
    let mut book = Orderbook::new("BTC/USDC");
    book.insert(ask(1, 500, 10));
    let events = book.matching(bid(2, 500, 4));
    assert_eq!(events, vec![traded(2, 1, 4, 500)]);
    let removed = book.remove(&OrderId::new(1)).unwrap();
    assert_eq!(removed.status(), OrderStatus::Closed);
    assert_eq!(removed.filled(), 4);
    assert!(book.is_empty());
}

#[test]
fn remove_of_an_unknown_order_changes_nothing() {
    let mut book = Orderbook::new("BTC/USDC");
    book.insert(ask(1, 500, 10));
    book.insert(bid(2, 400, 10));
    assert!(book.remove(&OrderId::new(9)).is_none());
    assert_eq!(book.len(), (1, 1));
    assert_eq!(book.spread(), Some((500, 400)));
}

#[test]
fn remove_of_the_last_order_of_a_level_drops_the_level() {
    let mut book = Orderbook::new("BTC/USDC");
    book.insert(ask(1, 500, 10));
    book.insert(ask(2, 510, 10));
    assert!(book.remove(&OrderId::new(1)).is_some());
    assert_eq!(book.peek(&OrderSide::Ask).unwrap().id(), OrderId::new(2));
    assert_eq!(book.spread(), None);
    book.insert(bid(3, 400, 10));
    assert_eq!(book.spread(), Some((510, 400)));
    assert!(book.remove(&OrderId::new(2)).is_some());
    assert!(book.peek(&OrderSide::Ask).is_none());
    assert_eq!(book.len(), (0, 1));
}

#[test]
fn peek_mut_writes_through_to_the_book() {
    let mut book = Orderbook::new("BTC/USDC");
    book.insert(ask(1, 500, 10));
    let mut taker = bid(2, 500, 4);
    {
        let maker = book.peek_mut(&OrderSide::Ask).unwrap();
        assert!(taker.trade(maker).is_some());
    }
    let maker = book.peek(&OrderSide::Ask).unwrap();
    assert_eq!(maker.filled(), 4);
    assert_eq!(maker.status(), OrderStatus::Partial);
    assert!(book.peek_mut(&OrderSide::Bid).is_none());
}

#[test]
fn matching_without_a_cross_rests_the_order() {
    let mut book = Orderbook::new("BTC/USDC");
    assert_eq!(book.matching(ask(1, 600000, 100)), vec![Event::Added(OrderId::new(1))]);
    assert_eq!(book.matching(bid(2, 500000, 100)), vec![Event::Added(OrderId::new(2))]);
    assert_eq!(book.len(), (1, 1));
    assert_eq!(book.spread(), Some((600000, 500000)));
}

#[test]
fn matching_sweeps_levels_in_price_order() {
    let mut book = Orderbook::new("BTC/USDC");
    book.matching(ask(1, 400000, 100));
    book.matching(ask(2, 300000, 100));
    book.matching(ask(3, 600000, 100));
    let events = book.matching(bid(4, 500000, 250));
    assert_eq!(
        events,
        vec![
            traded(4, 2, 100, 300000),
            traded(4, 1, 100, 400000),
            Event::Added(OrderId::new(4)),
        ]
    );
    assert_eq!(book.len(), (1, 1));
    assert_eq!(book.spread(), Some((600000, 500000)));
    let rest = book.peek(&OrderSide::Bid).unwrap();
    assert_eq!(rest.remaining(), 50);
    assert_eq!(rest.status(), OrderStatus::Partial);
}

#[test]
fn matching_leaves_a_partly_filled_maker_at_the_front() {
    let mut book = Orderbook::new("BTC/USDC");
    book.matching(bid(1, 500, 100));
    book.matching(bid(2, 500, 100));
    assert_eq!(book.matching(ask(3, 500, 30)), vec![traded(3, 1, 30, 500)]);
    let front = book.peek(&OrderSide::Bid).unwrap();
    assert_eq!(front.id(), OrderId::new(1));
    assert_eq!(front.remaining(), 70);
    assert_eq!(
        book.matching(ask(4, 500, 100)),
        vec![traded(4, 1, 70, 500), traded(4, 2, 30, 500)]
    );
    assert_eq!(book.peek(&OrderSide::Bid).unwrap().remaining(), 70);
    assert_eq!(book.len(), (0, 1));
}

#[test]
fn matching_a_closed_order_does_nothing() {
    let mut book = Orderbook::new("BTC/USDC");
    book.matching(ask(1, 500, 10));
    let mut closed = bid(2, 500, 10);
    closed.cancel();
    assert_eq!(book.matching(closed), vec![]);
    assert_eq!(book.len(), (1, 0));
}

#[test]
fn the_index_counts_every_resting_order() {
    let mut book = Orderbook::new("BTC/USDC");
    for id in 1..=20u64 {
        book.insert(ask(id, 1000 + id % 5, 10));
    }
    for id in 21..=30u64 {
        book.insert(bid(id, 900 - id % 3, 10));
    }
    assert_eq!(book.len(), (20, 10));
    assert!(book.remove(&OrderId::new(7)).is_some());
    assert!(book.pop(&OrderSide::Bid).is_some());
    assert_eq!(book.len(), (19, 9));
}
