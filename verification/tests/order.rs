use orderbook::engine::{Order, OrderId, OrderStatus, Trade};
use orderbook::OrderSide;

fn ask(id: u64, price: u64, amount: u64) -> Order {
    Order::new(OrderId::new(id), 7, OrderSide::Ask, price, amount)
}

fn bid(id: u64, price: u64, amount: u64) -> Order {
    Order::new(OrderId::new(id), 9, OrderSide::Bid, price, amount)
}

#[test]
fn simple_match() {
    let mut ask = Order::new(OrderId::new(1), 1, OrderSide::Ask, 500000, 150);
    let mut bid = Order::new(OrderId::new(2), 2, OrderSide::Bid, 500000, 150);

    assert!(ask.trade(&mut bid).is_some());
    assert!(ask.is_closed());
    assert!(bid.is_closed());
}

#[test]
fn new_order_is_open_and_unfilled() {
    let order = ask(11, 1234, 50);
    assert_eq!(order.id(), OrderId::new(11));
    assert_eq!(order.account_id(), 7);
    assert_eq!(order.side(), OrderSide::Ask);
    assert_eq!(order.limit_price(), 1234);
    assert_eq!(order.amount(), 50);
    assert_eq!(order.filled(), 0);
    assert_eq!(order.remaining(), 50);
    assert_eq!(order.status(), OrderStatus::Open);
    assert!(!order.is_closed());
}

#[test]
fn trade_exchanges_the_smaller_remainder_at_the_maker_price() {
    let mut taker = bid(2, 510000, 150);
    let mut maker = ask(1, 500000, 100);
    let trade = taker.trade(&mut maker);
    assert_eq!(
        trade,
        Some(Trade { taker: OrderId::new(2), maker: OrderId::new(1), amount: 100, price: 500000 })
    );
    assert_eq!(taker.filled(), 100);
    assert_eq!(taker.remaining(), 50);
    assert_eq!(taker.status(), OrderStatus::Partial);
    assert_eq!(maker.filled(), 100);
    assert_eq!(maker.remaining(), 0);
    assert_eq!(maker.status(), OrderStatus::Completed);
}

#[test]
fn ask_taker_trades_at_the_bid_price() {
    let mut taker = ask(5, 490000, 30);
    let mut maker = bid(6, 500000, 80);
    let trade = taker.trade(&mut maker);
    assert_eq!(
        trade,
        Some(Trade { taker: OrderId::new(5), maker: OrderId::new(6), amount: 30, price: 500000 })
    );
    assert_eq!(taker.status(), OrderStatus::Completed);
    assert_eq!(maker.status(), OrderStatus::Partial);
    assert_eq!(maker.remaining(), 50);
}

#[test]
fn orders_of_the_same_side_do_not_trade() {
    let mut first = ask(1, 100, 10);
    let mut second = ask(2, 100, 10);
    assert_eq!(first.trade(&mut second), None);
    assert_eq!(first.filled(), 0);
    assert_eq!(second.filled(), 0);
    assert_eq!(first.status(), OrderStatus::Open);
    assert_eq!(second.status(), OrderStatus::Open);
}

#[test]
fn orders_that_do_not_cross_do_not_trade() {
    let mut seller = ask(1, 600000, 100);
    let mut buyer = bid(2, 500000, 100);
    assert_eq!(seller.trade(&mut buyer), None);
    assert_eq!(buyer.trade(&mut seller), None);
    assert_eq!(seller.filled(), 0);
    assert_eq!(buyer.filled(), 0);
}

#[test]
fn equal_prices_cross() {
    let mut seller = ask(1, 500000, 10);
    let mut buyer = bid(2, 500000, 40);
    assert!(seller.trade(&mut buyer).is_some());
    assert!(seller.is_closed());
    assert!(!buyer.is_closed());
}

#[test]
fn cancel_follows_the_life_cycle() {
    let mut open = ask(1, 100, 10);
    open.cancel();
    assert_eq!(open.status(), OrderStatus::Cancelled);
    assert!(open.is_closed());
    open.cancel();
    assert_eq!(open.status(), OrderStatus::Cancelled);

    let mut partial = ask(2, 100, 10);
    let mut buyer = bid(3, 100, 4);
    assert!(partial.trade(&mut buyer).is_some());
    assert_eq!(partial.status(), OrderStatus::Partial);
    partial.cancel();
    assert_eq!(partial.status(), OrderStatus::Closed);
    assert_eq!(partial.filled(), 4);

    assert_eq!(buyer.status(), OrderStatus::Completed);
    buyer.cancel();
    assert_eq!(buyer.status(), OrderStatus::Completed);
}

#[test]
fn fill_only_grows_over_successive_trades() {
    let mut maker = ask(1, 100, 100);
    let mut seen = 0;
    for (id, amount) in [(2u64, 10u64), (3, 30), (4, 60)] {
        let mut taker = bid(id, 100, amount);
        assert!(taker.trade(&mut maker).is_some());
        assert!(maker.filled() >= seen);
        seen = maker.filled();
    }
    assert_eq!(maker.filled(), 100);
    assert_eq!(maker.status(), OrderStatus::Completed);
}

#[test]
fn default_status_is_open() {
    assert_eq!(OrderStatus::default(), OrderStatus::Open);
}

#[test]
fn opposite_sides() {
    assert_eq!(OrderSide::Ask.opposite(), OrderSide::Bid);
    assert_eq!(OrderSide::Bid.opposite(), OrderSide::Ask);
    assert_eq!(OrderSide::Ask.opposite().opposite(), OrderSide::Ask);
}

#[test]
fn orders_are_equal_by_identifier_and_compare_by_price() {
    let cheap = ask(1, 100, 10);
    let dear = ask(2, 200, 10);
    let same = bid(1, 300, 5);
    assert!(cheap == same);
    assert!(cheap != dear);
    assert!(cheap < dear);
    assert!(dear > cheap);
    assert_eq!(cheap.partial_cmp(&same), Some(std::cmp::Ordering::Equal));
}
