use orderbook::price::Price;
use orderbook::quantity::Quantity;
use orderbook::trade::Trade;

fn fresh_id() -> u128 {
    uuid::Uuid::new_v4().as_u128()
}

#[test]
fn test_new_trade() {
    let maker_order_id = fresh_id();
    let taker_order_id = fresh_id();
    let maker_user_id = fresh_id();
    let taker_user_id = fresh_id();
    let price = Price::new(10000);
    let quantity = Quantity::new(10);

    let trade = Trade::new(
        maker_order_id,
        taker_order_id,
        maker_user_id,
        taker_user_id,
        price,
        quantity,
    );

    assert_eq!(trade.maker_order_id, maker_order_id);
    assert_eq!(trade.taker_order_id, taker_order_id);
    assert_eq!(trade.maker_user_id, maker_user_id);
    assert_eq!(trade.taker_user_id, taker_user_id);
    assert_eq!(trade.price, price);
    assert_eq!(trade.quantity, quantity);
}

#[test]
fn test_trade_unique_ids() {
    let maker_order_id = fresh_id();
    let taker_order_id = fresh_id();
    let maker_user_id = fresh_id();
    let taker_user_id = fresh_id();
    let price = Price::new(5000);
    let quantity = Quantity::new(20);

    let trade1 = Trade::new(
        maker_order_id,
        taker_order_id,
        maker_user_id,
        taker_user_id,
        price,
        quantity,
    );
    let trade2 = Trade::new(
        maker_order_id,
        taker_order_id,
        maker_user_id,
        taker_user_id,
        price,
        quantity,
    );

    assert_ne!(trade1.id, trade2.id);
}
