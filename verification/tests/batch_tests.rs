use weakseq::{Batch, Order, Side};

fn order(id: u64, side: Side, price: u64, qty: u64) -> Order {
    Order::new(id, side, price, qty).unwrap()
}

#[test]
fn digest_is_order_independent() {
    let a = Batch::new(1, vec![order(1, Side::Buy, 100, 5), order(2, Side::Sell, 90, 5)]);
    let b = Batch::new(1, vec![order(2, Side::Sell, 90, 5), order(1, Side::Buy, 100, 5)]);
    assert_eq!(a.digest(), b.digest());
}

#[test]
fn digest_changes_with_content() {
    let a = Batch::new(1, vec![order(1, Side::Buy, 100, 5)]);
    let b = Batch::new(1, vec![order(1, Side::Buy, 101, 5)]);
    assert_ne!(a.digest(), b.digest());
}

#[test]
fn empty_batch_helpers() {
    let e = Batch::new(7, vec![]);
    assert!(e.is_empty());
    assert_eq!(e.len(), 0);
}

#[test]
fn digest_binds_batch_id() {
    let a = Batch::new(1, vec![order(1, Side::Buy, 100, 5)]);
    let b = Batch::new(2, vec![order(1, Side::Buy, 100, 5)]);
    assert_ne!(a.digest(), b.digest());
    // Not the all-zero bytes that an unhashed buffer would leave.
    assert_ne!(Batch::new(0, vec![]).digest(), weakseq::Digest::zero());
}

#[test]
fn digest_of_known_preimage() {
    // Keccak-256 of the eight zero bytes of batch id 0 with no orders.
    let d = Batch::new(0, vec![]).digest();
    let hex: String = d.0.iter().map(|b| format!("{:02x}", b)).collect();
    assert_eq!(hex, "011b4d03dd8c01f1049143cf9c4c817e4b167f1d1b83e5c6f0f10d89ba1e7bce");
}
