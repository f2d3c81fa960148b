//! The orders in which the library sorts orders: by content for digests, and
//! by fill priority on each side of the book.

use vstd::prelude::*;
use vstd::relations::{sorted_by, total_ordering};

use crate::order::{Order, Price, Quantity, Side};
use crate::order::group_order_values;

verus! {

broadcast use group_order_values, vstd::multiset::group_multiset_axioms;

/// A way of ranking orders.
#[derive(Clone, Copy, Debug, PartialEq, Eq, Structural)]
pub enum Ranking {
    /// By id, then side, price and quantity: the order of a batch digest.
    ByContent,
    /// Highest price first, then lowest id: the order in which buys fill.
    BuyPriority,
    /// Lowest price first, then lowest id: the order in which sells fill.
    SellPriority,
}

/// The number that stands for a side in keys and encodings.
pub open spec fn side_code(side: Side) -> u64 {
    match side {
        Side::Buy => 0,
        Side::Sell => 1,
    }
}

/// The key by which `how` sorts an order; keys compare lexicographically.
pub open spec fn rank_key(o: Order, how: Ranking) -> (u64, u64, u64, u64) {
    let t = o.price.spec_ticks();
    let q = o.quantity.spec_lots();
    match how {
        Ranking::ByContent => (o.id.0, side_code(o.side), t, q),
        Ranking::BuyPriority => ((u64::MAX - t) as u64, o.id.0, q, side_code(o.side)),
        Ranking::SellPriority => (t, o.id.0, q, side_code(o.side)),
    }
}

/// Lexicographic order on four-tuples, as std orders tuples.
pub open spec fn key_le(a: (u64, u64, u64, u64), b: (u64, u64, u64, u64)) -> bool {
    ||| a.0 < b.0
    ||| a.0 == b.0 && a.1 < b.1
    ||| a.0 == b.0 && a.1 == b.1 && a.2 < b.2
    ||| a.0 == b.0 && a.1 == b.1 && a.2 == b.2 && a.3 <= b.3
}

/// `a` comes no later than `b` under `how`.
pub open spec fn rank_le(how: Ranking) -> spec_fn(Order, Order) -> bool {
    |a: Order, b: Order| key_le(rank_key(a, how), rank_key(b, how))
}

/// The sort key of an order.
pub fn rank(o: &Order, how: Ranking) -> (r: (u64, u64, u64, u64))
    ensures
        r == rank_key(*o, how),
{
    let t = o.price.ticks();
    let q = o.quantity.lots();
    let s: u64 = match o.side {
        Side::Buy => 0,
        Side::Sell => 1,
    };
    match how {
        Ranking::ByContent => (o.id.0, s, t, q),
        Ranking::BuyPriority => (u64::MAX - t, o.id.0, q, s),
        Ranking::SellPriority => (t, o.id.0, q, s),
    }
}

/// Each ranking is a total order on orders: keys tell orders apart.
pub proof fn lemma_rank_total(how: Ranking)
    ensures
        total_ordering(rank_le(how)),
{
    assert forall|a: Order, b: Order|
        #[trigger] rank_le(how)(a, b) && #[trigger] rank_le(how)(b, a) implies a == b by {
        assert(rank_key(a, how) == rank_key(b, how));
        assert(a.price == b.price) by {
            assert(Price::of(a.price.spec_ticks()) == a.price);
            assert(Price::of(b.price.spec_ticks()) == b.price);
        }
        assert(a.quantity == b.quantity) by {
            assert(Quantity::of(a.quantity.spec_lots()) == a.quantity);
            assert(Quantity::of(b.quantity.spec_lots()) == b.quantity);
        }
    }
}

/// `slice::sort_unstable_by_key` with the key `rank(o, how)`: a permutation of
/// the orders whose keys ascend in std's lexicographic tuple order.
#[verifier::external_body]
fn sort_by_rank(v: &mut Vec<Order>, how: Ranking)
    ensures
        final(v)@.to_multiset() == old(v)@.to_multiset(),
        sorted_by(final(v)@, rank_le(how)),
{
    v.sort_unstable_by_key(|o| rank(o, how));
}

/// A copy of `orders`, sorted under `how`.
pub fn sorted_orders(orders: &[Order], how: Ranking) -> (r: Vec<Order>)
    ensures
        r@ == orders@.sort_by(rank_le(how)),
{
    let mut v: Vec<Order> = Vec::new();
    let mut i: usize = 0;
    while i < orders.len()
        invariant
            i <= orders@.len(),
            v@ == orders@.take(i as int),
        decreases orders@.len() - i,
    {
        v.push(orders[i]);
        i = i + 1;
        assert(v@ =~= orders@.take(i as int));
    }
    assert(v@ =~= orders@);
    sort_by_rank(&mut v, how);
    proof {
        lemma_rank_total(how);
        orders@.lemma_sort_by_ensures(rank_le(how));
        vstd::seq_lib::lemma_sorted_unique(v@, orders@.sort_by(rank_le(how)), rank_le(how));
    }
    v
}

/// Orders holding the same elements sort alike.
pub proof fn lemma_sorted_permutation(a: Seq<Order>, b: Seq<Order>, how: Ranking)
    requires
        a.to_multiset() == b.to_multiset(),
    ensures
        a.sort_by(rank_le(how)) == b.sort_by(rank_le(how)),
{
    lemma_rank_total(how);
    a.lemma_sort_by_ensures(rank_le(how));
    b.lemma_sort_by_ensures(rank_le(how));
    vstd::seq_lib::lemma_sorted_unique(a.sort_by(rank_le(how)), b.sort_by(rank_le(how)), rank_le(how));
}

} // verus!
