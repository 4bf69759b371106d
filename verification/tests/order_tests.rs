use orderbook::order::{Order, OrderSide, OrderStatus, OrderType};
use orderbook::price::Price;
use orderbook::quantity::Quantity;

fn fresh_user() -> u128 {
    uuid::Uuid::new_v4().as_u128()
}

#[test]
fn test_new_limit_order() {
    let user_id = fresh_user();
    let price = Price::new(10000);
    let quantity = Quantity::new(5);

    let order = Order::new_limit(user_id, OrderSide::Buy, price, quantity);

    assert_eq!(order.user_id, user_id);
    assert_eq!(order.side, OrderSide::Buy);
    assert_eq!(order.order_type, OrderType::Limit);
    assert_eq!(order.price, Some(price));
    assert_eq!(order.original_quantity, quantity);
    assert_eq!(order.remaining_quantity, quantity);
    assert_eq!(order.status, OrderStatus::Open);
}

#[test]
fn test_new_market_order() {
    let user_id = fresh_user();
    let quantity = Quantity::new(5);

    let order = Order::new_market(user_id, OrderSide::Sell, quantity);

    assert_eq!(order.user_id, user_id);
    assert_eq!(order.side, OrderSide::Sell);
    assert_eq!(order.order_type, OrderType::Market);
    assert_eq!(order.price, None);
    assert_eq!(order.original_quantity, quantity);
    assert_eq!(order.remaining_quantity, quantity);
    assert_eq!(order.status, OrderStatus::Open);
}

#[test]
fn test_partial_fill() {
    let user_id = fresh_user();
    let price = Price::new(10000);
    let quantity = Quantity::new(10);

    let mut order = Order::new_limit(user_id, OrderSide::Buy, price, quantity);

    order.fill(Quantity::new(3));

    assert_eq!(order.remaining_quantity, Quantity::new(7));
    assert_eq!(order.status, OrderStatus::PartiallyFilled);
    assert!(!order.is_fully_filled());
}

#[test]
fn test_full_fill() {
    let user_id = fresh_user();
    let price = Price::new(10000);
    let quantity = Quantity::new(10);

    let mut order = Order::new_limit(user_id, OrderSide::Buy, price, quantity);

    order.fill(Quantity::new(10));

    assert_eq!(order.remaining_quantity, Quantity::new(0));
    assert_eq!(order.status, OrderStatus::Filled);
    assert!(order.is_fully_filled());
}

#[test]
fn test_multiple_partial_fills() {
    let user_id = fresh_user();
    let price = Price::new(10000);
    let quantity = Quantity::new(10);

    let mut order = Order::new_limit(user_id, OrderSide::Buy, price, quantity);

    order.fill(Quantity::new(3));
    assert_eq!(order.remaining_quantity, Quantity::new(7));
    assert_eq!(order.status, OrderStatus::PartiallyFilled);

    order.fill(Quantity::new(4));
    assert_eq!(order.remaining_quantity, Quantity::new(3));
    assert_eq!(order.status, OrderStatus::PartiallyFilled);

    order.fill(Quantity::new(3));
    assert_eq!(order.remaining_quantity, Quantity::new(0));
    assert_eq!(order.status, OrderStatus::Filled);
    assert!(order.is_fully_filled());
}

#[test]
fn test_cancel_order() {
    let user_id = fresh_user();
    let price = Price::new(10000);
    let quantity = Quantity::new(10);

    let mut order = Order::new_limit(user_id, OrderSide::Buy, price, quantity);

    order.cancel();

    assert_eq!(order.status, OrderStatus::Cancelled);
    assert_eq!(order.remaining_quantity, quantity);
}

#[test]
fn test_cancel_partially_filled_order() {
    let user_id = fresh_user();
    let price = Price::new(10000);
    let quantity = Quantity::new(10);

    let mut order = Order::new_limit(user_id, OrderSide::Buy, price, quantity);

    order.fill(Quantity::new(4));
    assert_eq!(order.status, OrderStatus::PartiallyFilled);

    order.cancel();
    assert_eq!(order.status, OrderStatus::Cancelled);
    assert_eq!(order.remaining_quantity, Quantity::new(6));
}

#[test]
fn test_order_side_variants() {
    let user_id = fresh_user();
    let price = Price::new(10000);
    let quantity = Quantity::new(5);

    let buy_order = Order::new_limit(user_id, OrderSide::Buy, price, quantity);
    assert_eq!(buy_order.side, OrderSide::Buy);

    let sell_order = Order::new_limit(user_id, OrderSide::Sell, price, quantity);
    assert_eq!(sell_order.side, OrderSide::Sell);
}

#[test]
fn test_is_fully_filled_zero_quantity() {
    let user_id = fresh_user();
    let price = Price::new(10000);
    let quantity = Quantity::new(5);

    let mut order = Order::new_limit(user_id, OrderSide::Buy, price, quantity);

    assert!(!order.is_fully_filled());

    order.fill(quantity);
    assert!(order.is_fully_filled());
}

#[test]
fn test_order_id_uniqueness() {
    let user_id = fresh_user();
    let price = Price::new(10000);
    let quantity = Quantity::new(5);

    let order1 = Order::new_limit(user_id, OrderSide::Buy, price, quantity);
    let order2 = Order::new_limit(user_id, OrderSide::Buy, price, quantity);

    assert_ne!(order1.id, order2.id);
}

#[test]
fn test_order_timestamp() {
    let user_id = fresh_user();
    let price = Price::new(10000);
    let quantity = Quantity::new(5);

    let before = chrono::Utc::now().timestamp_millis();
    let order = Order::new_limit(user_id, OrderSide::Buy, price, quantity);
    let after = chrono::Utc::now().timestamp_millis();

    assert!(order.timestamp >= before);
    assert!(order.timestamp <= after);
}
