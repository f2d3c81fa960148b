use weakseq::{Order, Price, Quantity, SeqError, Side};

#[test]
fn rejects_zero_price_and_qty() {
    assert_eq!(Price::new(0), Err(SeqError::ZeroPrice));
    assert_eq!(Quantity::new(0), Err(SeqError::ZeroQuantity));
}

#[test]
fn quantity_min_and_sub() {
    let a = Quantity::new(10).unwrap();
    let b = Quantity::new(4).unwrap();
    assert_eq!(a.min(b), b);
    assert_eq!(a.saturating_sub(b).lots(), 6);
    assert_eq!(b.saturating_sub(a).lots(), 0);
}

#[test]
fn order_construction() {
    let o = Order::new(1, Side::Buy, 100, 5).unwrap();
    assert_eq!(o.price.ticks(), 100);
    assert_eq!(o.quantity.lots(), 5);
}

#[test]
fn order_zero_price_reported_before_zero_quantity() {
    assert_eq!(Order::new(1, Side::Sell, 0, 0), Err(SeqError::ZeroPrice));
    assert_eq!(Order::new(1, Side::Sell, 7, 0), Err(SeqError::ZeroQuantity));
}

#[test]
fn quantity_min_is_symmetric_and_zero_is_zero() {
    let a = Quantity::new(3).unwrap();
    let b = Quantity::new(9).unwrap();
    assert_eq!(b.min(a), a);
    assert_eq!(Quantity::zero().lots(), 0);
    assert_eq!(a.saturating_sub(a).lots(), 0);
}
