use orderbook::engine::{Decimal, Engine, Event, OrderId, OrderRequest, Trade};
use orderbook::OrderSide;

fn create(id: u64, side: OrderSide, amount: i128, price: i128) -> OrderRequest {
    OrderRequest::Create {
        account_id: "1".to_string(),
        amount: Decimal::new(amount, 2),
        order_id: id.to_string(),
        pair: "BTC/USDC".to_string(),
        limit_price: Decimal::new(price, 2),
        side,
    }
}

fn sell(id: u64, amount: i128, price: i128) -> OrderRequest {
    create(id, OrderSide::Ask, amount, price)
}

fn buy(id: u64, amount: i128, price: i128) -> OrderRequest {
    create(id, OrderSide::Bid, amount, price)
}

fn delete(id: u64) -> OrderRequest {
    OrderRequest::Delete { order_id: id.to_string() }
}

fn added(id: u64) -> Event {
    Event::Added(OrderId::new(id))
}

fn removed(id: u64) -> Event {
    Event::Removed(OrderId::new(id))
}

fn traded(taker: u64, maker: u64, amount: u64, price: u64) -> Event {
    Event::Traded(Trade { taker: OrderId::new(taker), maker: OrderId::new(maker), amount, price })
}

fn run(engine: &mut Engine, request: OrderRequest) -> Vec<Event> {
    assert!(engine.accepts(&request));
    engine.process(request)
}

#[test]
fn create_then_delete_round_trip() {
    let mut engine = Engine::new("BTC/USDC");
    assert_eq!(run(&mut engine, sell(1, 150, 500000)), vec![added(1)]);
    assert_eq!(run(&mut engine, delete(1)), vec![removed(1)]);
    assert!(engine.orderbook().is_empty());
    assert_eq!(engine.orderbook().len(), (0, 0));
}

#[test]
fn mirror_match() {
    let mut engine = Engine::new("BTC/USDC");
    assert_eq!(run(&mut engine, sell(1, 150, 500000)), vec![added(1)]);
    assert_eq!(run(&mut engine, buy(2, 150, 500000)), vec![traded(2, 1, 150, 500000)]);
    assert!(engine.orderbook().is_empty());
}

#[test]
fn asymmetric_partial_fills() {
    let mut engine = Engine::new("BTC/USDC");
    let mut trades = 0;
    assert_eq!(run(&mut engine, sell(1, 100, 500000)), vec![added(1)]);
    let events = run(&mut engine, buy(2, 150, 500000));
    assert_eq!(events, vec![traded(2, 1, 100, 500000), added(2)]);
    trades += events.iter().filter(|event| matches!(event, Event::Traded(_))).count();
    let events = run(&mut engine, sell(3, 25, 500000));
    assert_eq!(events, vec![traded(3, 2, 25, 500000)]);
    trades += events.len();
    let events = run(&mut engine, sell(4, 25, 500000));
    assert_eq!(events, vec![traded(4, 2, 25, 500000)]);
    trades += events.len();
    assert!(engine.orderbook().is_empty());
    assert_eq!(trades, 3);
}

#[test]
fn multi_level_sweep() {
    let mut engine = Engine::new("BTC/USDC");
    assert_eq!(run(&mut engine, sell(1, 100, 400000)), vec![added(1)]);
    assert_eq!(run(&mut engine, sell(2, 100, 300000)), vec![added(2)]);
    assert_eq!(run(&mut engine, sell(3, 100, 600000)), vec![added(3)]);
    assert_eq!(
        run(&mut engine, buy(4, 200, 500000)),
        vec![traded(4, 2, 100, 300000), traded(4, 1, 100, 400000)]
    );
    let book = engine.orderbook();
    assert_eq!(book.len(), (1, 0));
    assert_eq!(book.peek(&OrderSide::Ask).unwrap().id(), OrderId::new(3));
    assert_eq!(book.peek(&OrderSide::Ask).unwrap().remaining(), 100);
}

#[test]
fn price_time_priority_within_level() {
    let mut engine = Engine::new("BTC/USDC");
    assert_eq!(run(&mut engine, buy(1, 100, 500000)), vec![added(1)]);
    assert_eq!(run(&mut engine, buy(2, 100, 500000)), vec![added(2)]);
    assert_eq!(run(&mut engine, sell(3, 100, 500000)), vec![traded(3, 1, 100, 500000)]);
    let book = engine.orderbook();
    assert_eq!(book.len(), (0, 1));
    assert_eq!(book.peek(&OrderSide::Bid).unwrap().id(), OrderId::new(2));
    assert_eq!(book.peek(&OrderSide::Bid).unwrap().remaining(), 100);
}

#[test]
fn non_crossing_rest() {
    let mut engine = Engine::new("BTC/USDC");
    assert_eq!(run(&mut engine, sell(1, 100, 600000)), vec![added(1)]);
    assert_eq!(run(&mut engine, buy(2, 100, 500000)), vec![added(2)]);
    let book = engine.orderbook();
    assert_eq!(book.len(), (1, 1));
    assert_eq!(book.spread(), Some((600000, 500000)));
}

#[test]
fn delete_of_an_unknown_order_is_silent() {
    let mut engine = Engine::new("BTC/USDC");
    assert_eq!(run(&mut engine, delete(5)), vec![]);
    assert_eq!(run(&mut engine, sell(1, 100, 600000)), vec![added(1)]);
    assert_eq!(run(&mut engine, delete(5)), vec![]);
    assert_eq!(engine.orderbook().len(), (1, 0));
}

#[test]
fn delete_twice_is_delete_once() {
    let mut engine = Engine::new("BTC/USDC");
    run(&mut engine, sell(1, 100, 600000));
    run(&mut engine, buy(2, 100, 500000));
    assert_eq!(run(&mut engine, delete(1)), vec![removed(1)]);
    let after_once = (engine.orderbook().len(), engine.orderbook().spread());
    assert_eq!(run(&mut engine, delete(1)), vec![]);
    assert_eq!((engine.orderbook().len(), engine.orderbook().spread()), after_once);
    assert_eq!(engine.orderbook().peek(&OrderSide::Bid).unwrap().id(), OrderId::new(2));
}

#[test]
fn delete_of_a_filled_order_is_silent() {
    let mut engine = Engine::new("BTC/USDC");
    run(&mut engine, sell(1, 100, 500000));
    run(&mut engine, buy(2, 100, 500000));
    assert_eq!(run(&mut engine, delete(1)), vec![]);
    assert_eq!(run(&mut engine, delete(2)), vec![]);
}

#[test]
fn execution_is_at_the_resting_price() {
    let mut engine = Engine::new("BTC/USDC");
    run(&mut engine, sell(1, 100, 490000));
    assert_eq!(run(&mut engine, buy(2, 100, 510000)), vec![traded(2, 1, 100, 490000)]);
    run(&mut engine, buy(3, 100, 510000));
    assert_eq!(run(&mut engine, sell(4, 100, 490000)), vec![traded(4, 3, 100, 510000)]);
}

#[test]
fn a_request_for_a_resting_identifier_is_not_accepted() {
    let mut engine = Engine::new("BTC/USDC");
    run(&mut engine, sell(1, 100, 500000));
    assert!(!engine.accepts(&sell(1, 50, 400000)));
    assert!(!engine.accepts(&buy(1, 50, 400000)));
    assert!(engine.accepts(&delete(1)));
    assert!(engine.accepts(&sell(2, 50, 400000)));
}

#[test]
fn an_unreadable_request_is_not_accepted() {
    let engine = Engine::new("BTC/USDC");
    assert!(!engine.accepts(&OrderRequest::Delete { order_id: "abc".to_string() }));
    assert!(!engine.accepts(&sell(1, 0, 500000)));
    assert!(!engine.accepts(&sell(1, 10, -500000)));
}

#[test]
fn the_book_is_never_crossed_at_rest() {
    let mut engine = Engine::new("BTC/USDC");
    let mut id = 0;
    for round in 0..40i128 {
        id += 1;
        let price = 1000 + (round * 37) % 23;
        let amount = 1 + (round * 13) % 9;
        let request = if round % 2 == 0 { sell(id, amount, price) } else { buy(id, amount, price) };
        run(&mut engine, request);
        if round % 7 == 3 {
            run(&mut engine, delete(id - 2));
        }
        if let Some((ask, bid)) = engine.orderbook().spread() {
            assert!(ask > bid);
        }
    }
}

#[test]
fn trades_on_an_order_never_exceed_its_amount() {
    let mut engine = Engine::new("BTC/USDC");
    let mut events = Vec::new();
    events.extend(run(&mut engine, sell(1, 100, 500000)));
    events.extend(run(&mut engine, buy(2, 30, 500000)));
    events.extend(run(&mut engine, buy(3, 30, 510000)));
    events.extend(run(&mut engine, buy(4, 100, 520000)));
    events.extend(run(&mut engine, sell(5, 70, 500000)));
    let volume = |id: u64| -> u64 {
        events
            .iter()
            .map(|event| match event {
                Event::Traded(trade)
                    if trade.taker == OrderId::new(id) || trade.maker == OrderId::new(id) =>
                {
                    trade.amount
                }
                _ => 0,
            })
            .sum()
    };
    assert_eq!(volume(1), 100);
    assert_eq!(volume(2), 30);
    assert_eq!(volume(3), 30);
    assert_eq!(volume(4), 100);
    assert_eq!(volume(5), 60);
    assert_eq!(engine.orderbook().len(), (1, 0));
    assert_eq!(engine.orderbook().peek(&OrderSide::Ask).unwrap().remaining(), 10);
}

#[test]
fn events_account_for_the_population() {
    let mut engine = Engine::new("BTC/USDC");
    let mut resting: std::collections::HashMap<OrderId, u64> = std::collections::HashMap::new();
    let requests = vec![
        (sell(1, 100, 500000), 100),
        (sell(2, 100, 500000), 100),
        (buy(3, 150, 500000), 150),
        (delete(2), 0),
        (delete(2), 0),
        (buy(4, 10, 400000), 10),
        (buy(6, 20, 400000), 20),
        (buy(7, 30, 390000), 30),
        (sell(5, 200, 300000), 200),
    ];
    for (request, amount) in requests {
        let (asks, bids) = engine.orderbook().len();
        let before = (asks + bids) as i64;
        let mut left = amount;
        let mut added = 0;
        let mut removed = 0;
        let mut completed = 0;
        for event in run(&mut engine, request) {
            match event {
                Event::Added(id) => {
                    resting.insert(id, left);
                    added += 1;
                }
                Event::Removed(id) => {
                    assert!(resting.remove(&id).is_some());
                    removed += 1;
                }
                Event::Traded(trade) => {
                    left -= trade.amount;
                    let maker = resting.get_mut(&trade.maker).unwrap();
                    *maker -= trade.amount;
                    if *maker == 0 {
                        resting.remove(&trade.maker);
                        completed += 1;
                    }
                }
            }
        }
        let (asks, bids) = engine.orderbook().len();
        assert_eq!((asks + bids) as i64, before + added - removed - completed);
        assert_eq!(asks + bids, resting.len());
    }
    assert_eq!(engine.orderbook().len(), (1, 0));
    assert_eq!(engine.orderbook().peek(&OrderSide::Ask).unwrap().remaining(), 140);
}
