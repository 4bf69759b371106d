use orderbook::quantity::Quantity;

#[test]
fn test_quantity_is_zero() {
    let q = Quantity::new(0);
    assert!(q.is_zero());
}

#[test]
fn test_quantity_checked_sub() {
    let q1 = Quantity::new(150_000_000);
    let q2 = Quantity::new(50_000_000);
    assert_eq!(q1.checked_sub(q2), Some(Quantity::new(100_000_000)));
    assert_eq!(q2.checked_sub(q1), None);
}

#[test]
fn test_quantity_sub() {
    let q1 = Quantity::new(150_000_000);
    let q2 = Quantity::new(50_000_000);
    let result = q1.sub(q2);
    assert_eq!(result, Quantity::new(100_000_000));
}
