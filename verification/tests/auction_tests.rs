use weakseq::{AuctionEngine, Batch, ClearingResult, Order, Price, Side, UniformPriceAuction};

fn order(id: u64, side: Side, price: u64, qty: u64) -> Order {
    Order::new(id, side, price, qty).unwrap()
}

fn clear(orders: Vec<Order>) -> ClearingResult {
    UniformPriceAuction.clear(&Batch::new(1, orders))
}

fn filled(r: &ClearingResult, side: Side) -> u64 {
    r.fills.iter().filter(|f| f.side == side).map(|f| f.quantity.lots()).sum()
}

#[test]
fn simple_cross() {
    let r = clear(vec![order(1, Side::Buy, 100, 5), order(2, Side::Sell, 90, 5)]);
    assert!(!r.is_no_trade());
    assert_eq!(r.matched_quantity.lots(), 5);
    assert_eq!(r.fills.len(), 2);
}

#[test]
fn no_cross_returns_no_trade() {
    let r = clear(vec![order(1, Side::Buy, 90, 5), order(2, Side::Sell, 100, 5)]);
    assert!(r.is_no_trade());
    assert_eq!(r.matched_quantity.lots(), 0);
    assert!(r.fills.is_empty());
}

#[test]
fn partial_fill_on_imbalance() {
    let r = clear(vec![
        order(1, Side::Buy, 100, 6),
        order(2, Side::Buy, 100, 4),
        order(3, Side::Sell, 95, 4),
    ]);
    assert_eq!(r.matched_quantity.lots(), 4);
    assert_eq!(filled(&r, Side::Buy), 4);
    assert_eq!(filled(&r, Side::Sell), 4);
}

#[test]
fn clearing_is_order_independent() {
    let a = clear(vec![
        order(1, Side::Buy, 100, 5),
        order(2, Side::Sell, 90, 3),
        order(3, Side::Sell, 95, 3),
    ]);
    let b = clear(vec![
        order(3, Side::Sell, 95, 3),
        order(1, Side::Buy, 100, 5),
        order(2, Side::Sell, 90, 3),
    ]);
    assert_eq!(a.matched_quantity, b.matched_quantity);
    assert_eq!(a.clearing_price, b.clearing_price);
    assert_eq!(a.batch_digest, b.batch_digest);
}

#[test]
fn empty_batch_no_trade() {
    let r = clear(vec![]);
    assert!(r.is_no_trade());
}

#[test]
fn all_buys_no_trade() {
    let r = clear(vec![order(1, Side::Buy, 100, 5), order(2, Side::Buy, 90, 5)]);
    assert!(r.is_no_trade());
}

#[test]
fn conservation_matched_equal_both_sides() {
    let r = clear(vec![
        order(1, Side::Buy, 120, 7),
        order(2, Side::Buy, 110, 3),
        order(3, Side::Sell, 100, 6),
        order(4, Side::Sell, 105, 6),
    ]);
    let buy = filled(&r, Side::Buy);
    let sell = filled(&r, Side::Sell);
    assert_eq!(buy, sell);
    assert_eq!(buy, r.matched_quantity.lots());
}

#[test]
fn clearing_price_and_fills_exact() {
    // Candidates 90 and 100: at 90 demand 5, supply 5; at 100 demand 5, supply 5.
    // Same volume and imbalance, so the lower price wins.
    let r = clear(vec![order(1, Side::Buy, 100, 5), order(2, Side::Sell, 90, 5)]);
    assert_eq!(r.clearing_price, Some(Price::new(90).unwrap()));
    assert_eq!(r.fills[0].order_id.0, 1);
    assert_eq!(r.fills[0].side, Side::Buy);
    assert_eq!(r.fills[1].order_id.0, 2);
    assert_eq!(r.fills[1].side, Side::Sell);
    assert_eq!(r.batch_id.0, 1);
}

#[test]
fn volume_beats_imbalance() {
    // At 100: demand 10, supply 4 -> 4. At 95: demand 10, supply 4 -> 4 (imbalance 6).
    // At 105: demand 4, supply 12 -> 4 (imbalance 8). Tie on volume and at 95/100 on
    // imbalance: lowest price, 95.
    let r = clear(vec![
        order(1, Side::Buy, 105, 4),
        order(2, Side::Buy, 100, 6),
        order(3, Side::Sell, 95, 4),
        order(4, Side::Sell, 105, 8),
    ]);
    assert_eq!(r.matched_quantity.lots(), 4);
    assert_eq!(r.clearing_price, Some(Price::new(95).unwrap()));
}

#[test]
fn buys_fill_by_price_then_id() {
    // Clearing at 100 with 4 units: the 110 buy (id 5) fills first, then id 2.
    let r = clear(vec![
        order(2, Side::Buy, 100, 3),
        order(5, Side::Buy, 110, 2),
        order(9, Side::Buy, 100, 3),
        order(7, Side::Sell, 100, 4),
    ]);
    assert_eq!(r.matched_quantity.lots(), 4);
    let buys: Vec<(u64, u64)> = r
        .fills
        .iter()
        .filter(|f| f.side == Side::Buy)
        .map(|f| (f.order_id.0, f.quantity.lots()))
        .collect();
    assert_eq!(buys, vec![(5, 2), (2, 2)]);
}

#[test]
fn volumes_check() {
    assert!(weakseq::auction::volumes_fit_in(&[order(1, Side::Buy, 1, u64::MAX)]));
    assert!(!weakseq::auction::volumes_fit_in(&[
        order(1, Side::Buy, 1, u64::MAX),
        order(2, Side::Buy, 1, 1)
    ]));
}

#[test]
fn fills_have_their_shape() {
    let r = clear(vec![
        order(4, Side::Sell, 100, 6),
        order(1, Side::Buy, 120, 7),
        order(3, Side::Sell, 105, 6),
        order(2, Side::Buy, 110, 3),
    ]);
    let p = r.clearing_price.unwrap().ticks();
    // Buys first, then sells; each order at most once; limits respected.
    let first_sell = r.fills.iter().position(|f| f.side == Side::Sell).unwrap();
    assert!(r.fills[first_sell..].iter().all(|f| f.side == Side::Sell));
    let mut ids: Vec<u64> = r.fills.iter().map(|f| f.order_id.0).collect();
    ids.sort();
    ids.dedup();
    assert_eq!(ids.len(), r.fills.len());
    for f in &r.fills {
        let limit = match f.order_id.0 { 1 => 120, 2 => 110, 3 => 105, _ => 100 };
        if f.side == Side::Buy { assert!(limit >= p) } else { assert!(limit <= p) }
    }
    assert_eq!(filled(&r, Side::Buy), r.matched_quantity.lots());
    assert_eq!(filled(&r, Side::Sell), r.matched_quantity.lots());
}

#[test]
fn greedy_fills_take_a_prefix() {
    let queue = vec![order(7, Side::Buy, 120, 3), order(2, Side::Buy, 110, 4), order(5, Side::Buy, 100, 6)];
    let mut out = Vec::new();
    weakseq::auction::fill_side(&queue, 5, Side::Buy, &mut out);
    let got: Vec<(u64, u64)> = out.iter().map(|f| (f.order_id.0, f.quantity.lots())).collect();
    assert_eq!(got, vec![(7, 3), (2, 2)]);
    let mut none = Vec::new();
    weakseq::auction::fill_side(&queue, 0, Side::Buy, &mut none);
    assert!(none.is_empty());
    let mut all = Vec::new();
    weakseq::auction::fill_side(&queue, 100, Side::Sell, &mut all);
    assert_eq!(all.len(), 3);
    assert!(all.iter().all(|f| f.side == Side::Sell));
    assert_eq!(all.iter().map(|f| f.quantity.lots()).sum::<u64>(), 13);
}

#[test]
fn allocation_is_buys_then_sells_by_priority() {
    let b = Batch::new(
        1,
        vec![
            order(1, Side::Sell, 95, 4),
            order(2, Side::Buy, 100, 3),
            order(3, Side::Buy, 105, 3),
            order(4, Side::Sell, 90, 4),
            order(5, Side::Buy, 90, 9),
        ],
    );
    let fills = weakseq::auction::allocate(&b, 98, 5);
    let got: Vec<(u64, u64)> = fills.iter().map(|f| (f.order_id.0, f.quantity.lots())).collect();
    assert_eq!(got, vec![(3, 3), (2, 2), (4, 4), (1, 1)]);
}
