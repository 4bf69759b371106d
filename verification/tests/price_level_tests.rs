use orderbook::order::{Order, OrderSide};
use orderbook::price::Price;
use orderbook::price_level::PriceLevel;
use orderbook::quantity::Quantity;

fn mk_order(q: u64) -> Order {
    let user_id = uuid::Uuid::new_v4().as_u128();
    let price = Price::new(10_000);
    Order::new_limit(user_id, OrderSide::Buy, price, Quantity::new(q))
}

#[test]
fn enqueue_order_updates_volume_and_fifo() {
    let price = Price::new(10_000);
    let mut level = PriceLevel::new(price);

    let o1 = mk_order(3);
    let o2 = mk_order(7);

    level.enqueue_order(o1.clone());
    level.enqueue_order(o2.clone());

    assert_eq!(level.price, price);
    assert_eq!(level.total_volume, Quantity::new(3 + 7));
    assert_eq!(level.front().unwrap().id, o1.id);
    assert!(!level.is_empty());
}

#[test]
fn dequeue_order_by_id_updates_volume() {
    let price = Price::new(10_000);
    let mut level = PriceLevel::new(price);

    let o1 = mk_order(5);
    let o2 = mk_order(2);
    let o3 = mk_order(4);

    let o1_id = o1.id;
    let o2_id = o2.id;
    let o3_id = o3.id;

    level.enqueue_order(o1.clone());
    level.enqueue_order(o2.clone());
    level.enqueue_order(o3.clone());

    assert_eq!(level.total_volume, Quantity::new(5 + 2 + 4));

    let removed = level.dequeue_order_by_id(o2_id).expect("should remove");
    assert_eq!(removed.id, o2_id);
    assert_eq!(level.total_volume, Quantity::new(5 + 4));

    assert_eq!(level.front().unwrap().id, o1_id);

    let before = level.total_volume;
    assert!(level.dequeue_order_by_id(uuid::Uuid::new_v4().as_u128()).is_none());
    assert_eq!(level.total_volume, before);

    level.dequeue_order_by_id(o1_id);
    level.dequeue_order_by_id(o3_id);
    assert!(level.is_empty());
    assert_eq!(level.total_volume, Quantity::new(0));
}
