use orderbook::engine::order_request::parse_identifier;
use orderbook::engine::{Decimal, Order, OrderId, OrderRequest, OrderRequestError, OrderStatus};
use orderbook::OrderSide;

fn create(order_id: &str, account_id: &str, amount: Decimal, price: Decimal) -> OrderRequest {
    OrderRequest::Create {
        account_id: account_id.to_string(),
        amount,
        order_id: order_id.to_string(),
        pair: "BTC/USDC".to_string(),
        limit_price: price,
        side: OrderSide::Bid,
    }
}

#[test]
fn minor_units_keep_two_fractional_digits() {
    assert_eq!(Decimal::new(150025, 2).to_minor_units(), Some(150025));
    assert_eq!(Decimal::new(1500, 0).to_minor_units(), Some(150000));
    assert_eq!(Decimal::new(15002, 1).to_minor_units(), Some(150020));
    assert_eq!(Decimal::new(1005, 3).to_minor_units(), Some(100));
    assert_eq!(Decimal::new(1999999, 6).to_minor_units(), Some(199));
    assert_eq!(Decimal::new(0, 0).to_minor_units(), Some(0));
    assert_eq!(Decimal::new(7, 40).to_minor_units(), Some(0));
    assert_eq!(Decimal::new(5, u32::MAX).to_minor_units(), Some(0));
}

#[test]
fn minor_units_reject_what_is_out_of_range() {
    assert_eq!(Decimal::new(-1, 0).to_minor_units(), None);
    assert_eq!(Decimal::new(-150025, 2).to_minor_units(), None);
    assert_eq!(Decimal::new(u64::MAX as i128, 2).to_minor_units(), Some(u64::MAX));
    assert_eq!(Decimal::new(u64::MAX as i128 + 1, 2).to_minor_units(), None);
    assert_eq!(Decimal::new(u64::MAX as i128, 1).to_minor_units(), None);
    assert_eq!(Decimal::new(u64::MAX as i128, 0).to_minor_units(), None);
    assert_eq!(Decimal::new(i128::MAX, 0).to_minor_units(), None);
    assert_eq!(
        Decimal::new(184467440737095516, 0).to_minor_units(),
        Some(18446744073709551600)
    );
    assert_eq!(Decimal::new(184467440737095517, 0).to_minor_units(), None);
    assert_eq!(Decimal::new(184467440737095516, 1).to_minor_units(), Some(1844674407370955160));
    assert_eq!(Decimal::new(i128::MAX, 30).to_minor_units(), Some(17014118346));
}

#[test]
fn identifiers_are_written_in_digits() {
    assert_eq!(parse_identifier("0"), Some(0));
    assert_eq!(parse_identifier("42"), Some(42));
    assert_eq!(parse_identifier("007"), Some(7));
    assert_eq!(parse_identifier("18446744073709551615"), Some(u64::MAX));
    assert_eq!(parse_identifier("18446744073709551616"), None);
    assert_eq!(parse_identifier("99999999999999999999999"), None);
    assert_eq!(parse_identifier(""), None);
    assert_eq!(parse_identifier("+1"), None);
    assert_eq!(parse_identifier("-1"), None);
    assert_eq!(parse_identifier("12a"), None);
    assert_eq!(parse_identifier(" 12"), None);
    assert_eq!(parse_identifier("\u{661}\u{662}"), None);
    assert_eq!(parse_identifier("1\u{e9}"), None);
}

#[test]
fn a_create_request_makes_a_fresh_order() {
    let request = create("17", "3", Decimal::new(150, 2), Decimal::new(500000, 2));
    assert!(request.is_well_formed());
    assert_eq!(request.order_id(), Some(OrderId::new(17)));
    let order = Order::try_from(request).unwrap();
    assert_eq!(order.id(), OrderId::new(17));
    assert_eq!(order.account_id(), 3);
    assert_eq!(order.side(), OrderSide::Bid);
    assert_eq!(order.limit_price(), 500000);
    assert_eq!(order.amount(), 150);
    assert_eq!(order.filled(), 0);
    assert_eq!(order.status(), OrderStatus::Open);
}

#[test]
fn a_create_request_converts_decimals_to_minor_units() {
    let request = create("1", "1", Decimal::new(25, 1), Decimal::new(150025, 2));
    let order = Order::try_from(request).unwrap();
    assert_eq!(order.limit_price(), 150025);
    assert_eq!(order.amount(), 250);
}

#[test]
fn a_delete_request_is_no_order() {
    let request = OrderRequest::Delete { order_id: "5".to_string() };
    assert!(request.is_well_formed());
    assert_eq!(request.order_id(), Some(OrderId::new(5)));
    assert_eq!(Order::try_from(request).err(), Some(OrderRequestError::MismatchType));
}

#[test]
fn requests_with_unreadable_fields_are_not_well_formed() {
    let good_amount = Decimal::new(100, 2);
    let good_price = Decimal::new(500000, 2);
    assert!(!create("x1", "1", good_amount, good_price).is_well_formed());
    assert!(!create("1", "", good_amount, good_price).is_well_formed());
    assert!(!create("1", "1", Decimal::new(0, 2), good_price).is_well_formed());
    assert!(!create("1", "1", Decimal::new(-5, 2), good_price).is_well_formed());
    assert!(!create("1", "1", good_amount, Decimal::new(-1, 0)).is_well_formed());
    assert!(!create("1", "1", Decimal::new(1, 3), good_price).is_well_formed());
    assert!(create("1", "1", good_amount, Decimal::new(0, 0)).is_well_formed());
    assert!(!OrderRequest::Delete { order_id: "one".to_string() }.is_well_formed());
    assert_eq!(OrderRequest::Delete { order_id: "one".to_string() }.order_id(), None);
}
