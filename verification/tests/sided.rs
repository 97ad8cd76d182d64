use orderbook::engine::{
    AskOrder, BidOrder, Order, OrderError, OrderId, OrderStatus, Trade, TradeError,
};
use orderbook::OrderSide;

fn ask(id: u64, price: u64, amount: u64) -> Order {
    Order::new(OrderId::new(id), 1, OrderSide::Ask, price, amount)
}

fn bid(id: u64, price: u64, amount: u64) -> Order {
    Order::new(OrderId::new(id), 2, OrderSide::Bid, price, amount)
}

#[test]
fn an_ask_is_accepted_as_ask_only() {
    assert!(AskOrder::try_from(ask(1, 100, 10)).is_ok());
    assert_eq!(BidOrder::try_from(ask(1, 100, 10)).err(), Some(OrderError::MismatchSide));
}

#[test]
fn a_bid_is_accepted_as_bid_only() {
    assert!(BidOrder::try_from(bid(1, 100, 10)).is_ok());
    assert_eq!(AskOrder::try_from(bid(1, 100, 10)).err(), Some(OrderError::MismatchSide));
}

#[test]
fn sided_orders_show_the_order_inside() {
    let sell = AskOrder::try_from(ask(4, 120, 30)).unwrap();
    assert_eq!(sell.id(), OrderId::new(4));
    assert_eq!(sell.side(), OrderSide::Ask);
    assert_eq!(sell.limit_price(), 120);
    assert_eq!(sell.remaining(), 30);
    assert_eq!(sell.status(), OrderStatus::Open);
    assert!(!sell.is_closed());
    assert_eq!(sell.amount(), 30);
    let plain: Order = sell.into();
    assert_eq!(plain.id(), OrderId::new(4));
    assert_eq!(plain.side(), OrderSide::Ask);

    let buy = BidOrder::try_from(bid(5, 110, 20)).unwrap();
    assert_eq!(buy.side(), OrderSide::Bid);
    assert_eq!(buy.filled(), 0);
    let plain = Order::from(buy);
    assert_eq!(plain.limit_price(), 110);
}

#[test]
fn sided_orders_trade_when_prices_cross() {
    let mut sell = AskOrder::try_from(ask(1, 100, 10)).unwrap();
    let mut buy = BidOrder::try_from(bid(2, 105, 25)).unwrap();
    let trade = buy.trade(&mut sell);
    assert_eq!(
        trade,
        Some(Trade { taker: OrderId::new(2), maker: OrderId::new(1), amount: 10, price: 100 })
    );
    assert!(sell.is_closed());
    assert_eq!(buy.remaining(), 15);

    let mut late = AskOrder::try_from(ask(3, 106, 10)).unwrap();
    assert_eq!(late.trade(&mut buy), None);
    assert_eq!(buy.remaining(), 15);

    let mut second = AskOrder::try_from(ask(4, 105, 5)).unwrap();
    let trade = second.trade(&mut buy);
    assert_eq!(
        trade,
        Some(Trade { taker: OrderId::new(4), maker: OrderId::new(2), amount: 5, price: 105 })
    );
    buy.cancel();
    assert_eq!(buy.status(), OrderStatus::Closed);
    late.cancel();
    assert_eq!(late.status(), OrderStatus::Cancelled);
}

#[test]
fn trade_from_a_pair_fails_on_mismatched_sides() {
    let mut first = ask(1, 100, 10);
    let mut second = ask(2, 100, 10);
    assert_eq!(
        Trade::try_from((&mut first, &mut second)),
        Err(TradeError::MismatchSides)
    );
    assert_eq!(first.filled(), 0);
    assert_eq!(second.filled(), 0);
}

#[test]
fn trade_from_a_pair_fails_when_prices_do_not_cross() {
    let mut seller = ask(1, 101, 10);
    let mut buyer = bid(2, 100, 10);
    assert_eq!(
        Trade::try_from((&mut buyer, &mut seller)),
        Err(TradeError::MismatchSides)
    );
}

#[test]
fn errors_say_what_went_wrong() {
    assert_eq!(OrderError::MismatchSide.message(), "sides mismatch");
    assert_eq!(TradeError::MismatchSides.message(), "taker and maker must be opposite each other");
    assert_eq!(
        orderbook::engine::OrderRequestError::MismatchType.message(),
        "order type mismatch"
    );
}

#[test]
fn trade_from_a_pair_fills_both() {
    let mut seller = ask(1, 100, 10);
    let mut buyer = bid(2, 100, 4);
    assert_eq!(
        Trade::try_from((&mut buyer, &mut seller)),
        Ok(Trade { taker: OrderId::new(2), maker: OrderId::new(1), amount: 4, price: 100 })
    );
    assert_eq!(seller.filled(), 4);
    assert_eq!(buyer.filled(), 4);
    assert!(buyer.is_closed());
}
