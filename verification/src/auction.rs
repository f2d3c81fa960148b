//! Uniform-price batch auction.
//!
//! All orders in a batch clear at one price. For each candidate price `p`:
//!
//!   * demand(p) = total quantity of buys with limit >= p
//!   * supply(p) = total quantity of sells with limit <= p
//!   * matched(p) = min(demand, supply)
//!
//! The clearing price maximizes `matched(p)`; ties go to the smaller
//! demand/supply imbalance, then to the lower price. Fills are allocated
//! greedily: buys by (price desc, id asc), sells by (price asc, id asc).
//!
//! Clearing sorts the orders by price once and sweeps the candidate prices
//! upwards with running sums of demand and supply, so it takes `O(n log n)`
//! for `n` orders.

use vstd::prelude::*;
use vstd::relations::sorted_by;

use crate::batch::{digest_of, lemma_digest_order_independent, Batch, BatchId, ClearingResult, Fill, ResultView};
use crate::order::{group_order_values, Order, Price, Quantity, Side};
use crate::ranking::{lemma_rank_total, lemma_sorted_permutation, rank_le, sorted_orders, Ranking};
use crate::sums::{
    lemma_sum_concat, lemma_sum_congruent, lemma_sum_monotone, lemma_sum_permutation, lemma_sum_push,
    lemma_sum_single, lemma_sum_take, lemma_sum_take_bounded, lemma_sum_zeros, sum_of,
};

verus! {

broadcast use group_order_values, vstd::seq_lib::group_seq_properties,
    vstd::seq_lib::group_to_multiset_ensures, vstd::multiset::group_multiset_axioms;

// ---------------------------------------------------------------------------
// What clearing computes
// ---------------------------------------------------------------------------

pub open spec fn min_nat(a: nat, b: nat) -> nat {
    if a <= b {
        a
    } else {
        b
    }
}

/// The quantity an order demands at price `p`: that of a buy whose limit is at least `p`.
pub open spec fn buy_volume(p: u64) -> spec_fn(Order) -> nat {
    |o: Order|
        if o.side == Side::Buy && o.price.spec_ticks() >= p {
            o.quantity.spec_lots() as nat
        } else {
            0
        }
}

/// The quantity an order supplies at price `p`: that of a sell whose limit is at most `p`.
pub open spec fn sell_volume(p: u64) -> spec_fn(Order) -> nat {
    |o: Order|
        if o.side == Side::Sell && o.price.spec_ticks() <= p {
            o.quantity.spec_lots() as nat
        } else {
            0
        }
}

/// Demand or supply weight, by side.
pub open spec fn side_volume(p: u64, side: Side) -> spec_fn(Order) -> nat {
    match side {
        Side::Buy => buy_volume(p),
        Side::Sell => sell_volume(p),
    }
}

pub open spec fn demand(orders: Seq<Order>, p: u64) -> nat {
    sum_of(orders, buy_volume(p))
}

pub open spec fn supply(orders: Seq<Order>, p: u64) -> nat {
    sum_of(orders, sell_volume(p))
}

/// What would trade at price `p`.
pub open spec fn matched_at(orders: Seq<Order>, p: u64) -> nat {
    min_nat(demand(orders, p), supply(orders, p))
}

/// How far demand and supply are apart at price `p`.
pub open spec fn imbalance_at(orders: Seq<Order>, p: u64) -> nat {
    let d = demand(orders, p);
    let s = supply(orders, p);
    if d >= s {
        (d - s) as nat
    } else {
        (s - d) as nat
    }
}

/// Some order has limit price `p`.
pub open spec fn is_order_price(orders: Seq<Order>, p: u64) -> bool {
    exists|i: int| 0 <= i < orders.len() && (#[trigger] orders[i]).price.spec_ticks() == p
}

/// `p` is an order's price and something trades there.
pub open spec fn crosses_at(orders: Seq<Order>, p: u64) -> bool {
    is_order_price(orders, p) && matched_at(orders, p) > 0
}

/// Price `p` clears strictly better than `q`: more volume, then less
/// imbalance, then the lower price.
pub open spec fn preferred(orders: Seq<Order>, p: u64, q: u64) -> bool {
    ||| matched_at(orders, p) > matched_at(orders, q)
    ||| matched_at(orders, p) == matched_at(orders, q) && imbalance_at(orders, p) < imbalance_at(
        orders,
        q,
    )
    ||| matched_at(orders, p) == matched_at(orders, q) && imbalance_at(orders, p) == imbalance_at(
        orders,
        q,
    ) && p < q
}

/// `p` crosses and is preferred to every other crossing price.
pub open spec fn is_clearing_price(orders: Seq<Order>, p: u64) -> bool {
    &&& crosses_at(orders, p)
    &&& forall|q: u64| #[trigger] crosses_at(orders, q) && q != p ==> preferred(orders, p, q)
}

/// The clearing price of the orders, if some price crosses.
pub open spec fn clearing_price_of(orders: Seq<Order>) -> Option<u64> {
    if exists|p: u64| is_clearing_price(orders, p) {
        Some(choose|p: u64| is_clearing_price(orders, p))
    } else {
        None
    }
}

/// Total buy and total sell quantity each fit in a `u64`.
pub open spec fn volumes_fit(orders: Seq<Order>) -> bool {
    &&& demand(orders, 0) <= u64::MAX
    &&& supply(orders, u64::MAX) <= u64::MAX
}

// ---------------------------------------------------------------------------
// What allocation computes
// ---------------------------------------------------------------------------

/// Buys with limit at least `p`.
pub open spec fn buys_at(p: u64) -> spec_fn(Order) -> bool {
    |o: Order| o.side == Side::Buy && o.price.spec_ticks() >= p
}

/// Sells with limit at most `p`.
pub open spec fn sells_at(p: u64) -> spec_fn(Order) -> bool {
    |o: Order| o.side == Side::Sell && o.price.spec_ticks() <= p
}

/// The orders that can fill on `side` at price `p`.
pub open spec fn eligible_at(p: u64, side: Side) -> spec_fn(Order) -> bool {
    match side {
        Side::Buy => buys_at(p),
        Side::Sell => sells_at(p),
    }
}

/// The elements of `s` that satisfy `pred`, in order.
pub open spec fn keep(s: Seq<Order>, pred: spec_fn(Order) -> bool) -> Seq<Order>
    decreases s.len(),
{
    if s.len() == 0 {
        Seq::empty()
    } else if pred(s.last()) {
        keep(s.drop_last(), pred).push(s.last())
    } else {
        keep(s.drop_last(), pred)
    }
}

/// An order's quantity.
pub open spec fn lots_of() -> spec_fn(Order) -> nat {
    |o: Order| o.quantity.spec_lots() as nat
}

/// Fills in queue order: each order takes what it can of what remains.
pub open spec fn greedy_fills(queue: Seq<Order>, remaining: nat, side: Side) -> Seq<Fill>
    decreases queue.len(),
{
    if queue.len() == 0 || remaining == 0 {
        Seq::empty()
    } else {
        let take = min_nat(queue[0].quantity.spec_lots() as nat, remaining);
        if take > 0 {
            seq![Fill { order_id: queue[0].id, side, quantity: Quantity::of(take as u64) }]
                + greedy_fills(queue.drop_first(), (remaining - take) as nat, side)
        } else {
            greedy_fills(queue.drop_first(), remaining, side)
        }
    }
}

/// The fill queue of one side at price `p`.
pub open spec fn priority_queue(orders: Seq<Order>, p: u64, side: Side) -> Seq<Order> {
    keep(orders, eligible_at(p, side)).sort_by(
        rank_le(
            match side {
                Side::Buy => Ranking::BuyPriority,
                Side::Sell => Ranking::SellPriority,
            },
        ),
    )
}

/// The fills of a batch cleared at `p` with `matched` units: buys, then sells.
pub open spec fn allocation(orders: Seq<Order>, p: u64, matched: nat) -> Seq<Fill> {
    greedy_fills(priority_queue(orders, p, Side::Buy), matched, Side::Buy) + greedy_fills(
        priority_queue(orders, p, Side::Sell),
        matched,
        Side::Sell,
    )
}

/// A fill's quantity if it is on `side`.
pub open spec fn fill_volume(side: Side) -> spec_fn(Fill) -> nat {
    |f: Fill|
        if f.side == side {
            f.quantity.spec_lots() as nat
        } else {
            0
        }
}

/// The total quantity filled on `side`.
pub open spec fn filled(fills: Seq<Fill>, side: Side) -> nat {
    sum_of(fills, fill_volume(side))
}

/// `r` is what clearing the orders of batch `id` gives.
pub open spec fn clears_to(id: u64, orders: Seq<Order>, r: ResultView) -> bool {
    &&& r.batch_id == BatchId(id)
    &&& r.batch_digest.0@ == digest_of(id, orders)
    &&& match clearing_price_of(orders) {
        Some(p) => {
            &&& r.clearing_price == Some(Price::of(p))
            &&& r.matched_quantity == Quantity::of(matched_at(orders, p) as u64)
            &&& r.fills == allocation(orders, p, matched_at(orders, p))
        },
        None => {
            &&& r.clearing_price is None
            &&& r.matched_quantity == Quantity::of(0)
            &&& r.fills == Seq::<Fill>::empty()
        },
    }
}

// ---------------------------------------------------------------------------
// Facts about clearing
// ---------------------------------------------------------------------------

/// At most one price clears a batch.
pub proof fn lemma_clearing_price_unique(orders: Seq<Order>, p: u64, q: u64)
    requires
        is_clearing_price(orders, p),
        is_clearing_price(orders, q),
    ensures
        p == q,
{
    if p != q {
        assert(crosses_at(orders, q));
        assert(crosses_at(orders, p));
        assert(preferred(orders, p, q));
        assert(preferred(orders, q, p));
    }
}

/// The clearing price, where one exists, is the one that `clearing_price_of` names.
pub proof fn lemma_clearing_price_of(orders: Seq<Order>, p: u64)
    requires
        is_clearing_price(orders, p),
    ensures
        clearing_price_of(orders) == Some(p),
{
    let c = choose|c: u64| is_clearing_price(orders, c);
    lemma_clearing_price_unique(orders, p, c);
}

/// Demand only falls as the price rises, so the demand at 0 bounds every demand;
/// likewise supply at the top price bounds every supply.
pub proof fn lemma_volume_bounded(orders: Seq<Order>, p: u64, side: Side)
    ensures
        side == Side::Buy ==> demand(orders, p) <= demand(orders, 0),
        side == Side::Sell ==> supply(orders, p) <= supply(orders, u64::MAX),
{
    lemma_sum_monotone(orders, buy_volume(p), buy_volume(0));
    lemma_sum_monotone(orders, sell_volume(p), sell_volume(u64::MAX));
}

/// How many copies of `x` survive `keep`.
proof fn lemma_keep_count(s: Seq<Order>, pred: spec_fn(Order) -> bool, x: Order)
    ensures
        keep(s, pred).to_multiset().count(x) == if pred(x) {
            s.to_multiset().count(x)
        } else {
            0
        },
    decreases s.len(),
{
    if s.len() == 0 {
        assert(keep(s, pred) =~= Seq::<Order>::empty());
    } else {
        lemma_keep_count(s.drop_last(), pred, x);
        assert(s =~= s.drop_last().push(s.last()));
    }
}

/// Keeping commutes with reordering.
pub proof fn lemma_keep_permutation(a: Seq<Order>, b: Seq<Order>, pred: spec_fn(Order) -> bool)
    requires
        a.to_multiset() == b.to_multiset(),
    ensures
        keep(a, pred).to_multiset() == keep(b, pred).to_multiset(),
{
    assert forall|x: Order| keep(a, pred).to_multiset().count(x) == keep(b, pred).to_multiset().count(x) by {
        lemma_keep_count(a, pred, x);
        lemma_keep_count(b, pred, x);
    }
    assert(keep(a, pred).to_multiset() =~= keep(b, pred).to_multiset());
}

/// A weight that counts only the kept elements sums to the kept elements' weight.
proof fn lemma_keep_sum(
    s: Seq<Order>,
    pred: spec_fn(Order) -> bool,
    w: spec_fn(Order) -> nat,
    v: spec_fn(Order) -> nat,
)
    requires
        forall|o: Order| #[trigger] v(o) == if pred(o) {
            w(o)
        } else {
            0
        },
    ensures
        sum_of(s, v) == sum_of(keep(s, pred), w),
    decreases s.len(),
{
    if s.len() > 0 {
        lemma_keep_sum(s.drop_last(), pred, w, v);
        if pred(s.last()) {
            lemma_sum_push(keep(s.drop_last(), pred), s.last(), w);
        }
    }
}

/// The queue of one side holds exactly that side's volume at `p`.
pub proof fn lemma_queue_volume(orders: Seq<Order>, p: u64, side: Side)
    ensures
        sum_of(priority_queue(orders, p, side), lots_of()) == sum_of(orders, side_volume(p, side)),
{
    let how = match side {
        Side::Buy => Ranking::BuyPriority,
        Side::Sell => Ranking::SellPriority,
    };
    let kept = keep(orders, eligible_at(p, side));
    lemma_rank_total(how);
    kept.lemma_sort_by_ensures(rank_le(how));
    lemma_sum_permutation(kept, kept.sort_by(rank_le(how)), lots_of());
    lemma_keep_sum(orders, eligible_at(p, side), lots_of(), side_volume(p, side));
}

proof fn lemma_filled_prepend(f: Fill, rest: Seq<Fill>, side: Side)
    ensures
        filled(seq![f] + rest, side) == fill_volume(side)(f) + filled(rest, side),
{
    lemma_sum_concat(seq![f], rest, fill_volume(side));
    lemma_sum_single(f, fill_volume(side));
}

/// Greedy filling hands out `remaining` or the whole queue, whichever is less,
/// and nothing on the other side.
pub proof fn lemma_greedy_volume(queue: Seq<Order>, remaining: nat, side: Side, other: Side)
    requires
        other != side,
    ensures
        filled(greedy_fills(queue, remaining, side), side) == min_nat(
            remaining,
            sum_of(queue, lots_of()),
        ),
        filled(greedy_fills(queue, remaining, side), other) == 0,
    decreases queue.len(),
{
    if queue.len() == 0 {
    } else {
        crate::sums::lemma_sum_drop_first(queue, lots_of());
        if remaining == 0 {
        } else {
            let q = queue[0].quantity.spec_lots() as nat;
            let take = min_nat(q, remaining);
            let f = Fill { order_id: queue[0].id, side, quantity: Quantity::of(take as u64) };
            if take > 0 {
                lemma_greedy_volume(queue.drop_first(), (remaining - take) as nat, side, other);
                lemma_filled_prepend(
                    f,
                    greedy_fills(queue.drop_first(), (remaining - take) as nat, side),
                    side,
                );
                lemma_filled_prepend(
                    f,
                    greedy_fills(queue.drop_first(), (remaining - take) as nat, side),
                    other,
                );
            } else {
                lemma_greedy_volume(queue.drop_first(), remaining, side, other);
            }
        }
    }
}

/// Every order of the queue has positive lots.
pub open spec fn positive_lots(queue: Seq<Order>) -> bool {
    forall|i: int| 0 <= i < queue.len() ==> (#[trigger] queue[i]).quantity.spec_lots() > 0
}

/// The shape of greedy fills `g` of `queue` with `remaining` units on `side`:
/// the j-th fill names the j-th queued order, on `side`, with positive lots;
/// every fill but the last takes its order's full lots, the last at most them;
/// and nothing is filled when nothing remains.
pub open spec fn greedy_shape(queue: Seq<Order>, remaining: nat, side: Side, g: Seq<Fill>) -> bool {
    &&& g.len() <= queue.len()
    &&& remaining == 0 ==> g.len() == 0
    &&& forall|j: int|
        0 <= j < g.len() ==> (#[trigger] g[j]).order_id == queue[j].id && g[j].side == side && 0
            < g[j].quantity.spec_lots() <= queue[j].quantity.spec_lots()
    &&& forall|j: int| 0 <= j < g.len() - 1 ==> (#[trigger] g[j]).quantity.spec_lots() == queue[j].quantity.spec_lots()
}

/// Greedy filling of a queue whose orders all have lots takes a prefix of the
/// queue: order by order, each in full but the last, up to `remaining` units
/// in all (or the whole queue, if that is less).
pub proof fn lemma_greedy_shape(queue: Seq<Order>, remaining: nat, side: Side)
    requires
        positive_lots(queue),
    ensures
        greedy_shape(queue, remaining, side, greedy_fills(queue, remaining, side)),
        filled(greedy_fills(queue, remaining, side), side) == min_nat(remaining, sum_of(queue, lots_of())),
    decreases queue.len(),
{
    let other = match side {
        Side::Buy => Side::Sell,
        Side::Sell => Side::Buy,
    };
    lemma_greedy_volume(queue, remaining, side, other);
    if queue.len() > 0 && remaining > 0 {
        let rest = queue.drop_first();
        let q = queue[0].quantity.spec_lots() as nat;
        let take = min_nat(q, remaining);
        assert forall|i: int| 0 <= i < rest.len() implies (#[trigger] rest[i]).quantity.spec_lots() > 0 by {
            assert(rest[i] == queue[i + 1]);
        }
        lemma_greedy_shape(rest, (remaining - take) as nat, side);
        let g = greedy_fills(queue, remaining, side);
        let tail = greedy_fills(rest, (remaining - take) as nat, side);
        assert(g == seq![g[0]] + tail);
        assert forall|j: int| 0 <= j < g.len() implies (#[trigger] g[j]).order_id == queue[j].id && g[j].side
            == side && 0 < g[j].quantity.spec_lots() <= queue[j].quantity.spec_lots() by {
            if j > 0 {
                assert(g[j] == tail[j - 1]);
                assert(rest[j - 1] == queue[j]);
            }
        }
        assert forall|j: int| 0 <= j < g.len() - 1 implies (#[trigger] g[j]).quantity.spec_lots()
            == queue[j].quantity.spec_lots() by {
            if j > 0 {
                assert(g[j] == tail[j - 1]);
                assert(rest[j - 1] == queue[j]);
            } else {
                assert(tail.len() > 0);
            }
        }
    }
}

/// A side's priority queue inherits positive lots from the orders.
proof fn lemma_queue_positive(orders: Seq<Order>, p: u64, side: Side)
    requires
        positive_lots(orders),
    ensures
        positive_lots(priority_queue(orders, p, side)),
{
    let how = match side {
        Side::Buy => Ranking::BuyPriority,
        Side::Sell => Ranking::SellPriority,
    };
    let kept = keep(orders, eligible_at(p, side));
    let queue = priority_queue(orders, p, side);
    lemma_rank_total(how);
    kept.lemma_sort_by_ensures(rank_le(how));
    assert forall|i: int| 0 <= i < queue.len() implies (#[trigger] queue[i]).quantity.spec_lots() > 0 by {
        assert(queue.to_multiset().count(queue[i]) > 0);
        assert(kept.contains(queue[i]));
        lemma_keep_members(orders, eligible_at(p, side), queue[i]);
        let a = choose|a: int| 0 <= a < orders.len() && orders[a] == queue[i];
        assert(orders[a].quantity.spec_lots() > 0);
    }
}

/// Price, then time (id), priority: the buy queue holds the buys whose limit
/// is at least `p`, highest limit first and lower id first among equal limits;
/// the sell queue holds the sells whose limit is at most `p`, lowest limit
/// first and lower id first among equal limits.
pub proof fn lemma_queue_priority(orders: Seq<Order>, p: u64)
    ensures
        ({
            let bq = priority_queue(orders, p, Side::Buy);
            &&& forall|i: int|
                0 <= i < bq.len() ==> orders.contains(#[trigger] bq[i]) && bq[i].side == Side::Buy
                    && bq[i].price.spec_ticks() >= p
            &&& forall|i: int, j: int|
                0 <= i < j < bq.len() ==> (#[trigger] bq[i]).price.spec_ticks() >= (#[trigger] bq[j]).price.spec_ticks()
                    && (bq[i].price.spec_ticks() == bq[j].price.spec_ticks() ==> bq[i].id.0 <= bq[j].id.0)
        }),
        ({
            let sq = priority_queue(orders, p, Side::Sell);
            &&& forall|i: int|
                0 <= i < sq.len() ==> orders.contains(#[trigger] sq[i]) && sq[i].side == Side::Sell
                    && sq[i].price.spec_ticks() <= p
            &&& forall|i: int, j: int|
                0 <= i < j < sq.len() ==> (#[trigger] sq[i]).price.spec_ticks() <= (#[trigger] sq[j]).price.spec_ticks()
                    && (sq[i].price.spec_ticks() == sq[j].price.spec_ticks() ==> sq[i].id.0 <= sq[j].id.0)
        }),
{
    lemma_queue_members(orders, p, Side::Buy);
    lemma_queue_members(orders, p, Side::Sell);
    let bq = priority_queue(orders, p, Side::Buy);
    let sq = priority_queue(orders, p, Side::Sell);
    assert forall|i: int, j: int| 0 <= i < j < bq.len() implies (#[trigger] bq[i]).price.spec_ticks() >= (
    #[trigger] bq[j]).price.spec_ticks() && (bq[i].price.spec_ticks() == bq[j].price.spec_ticks() ==> bq[i].id.0
        <= bq[j].id.0) by {
        assert(rank_le(Ranking::BuyPriority)(bq[i], bq[j]));
    }
    assert forall|i: int, j: int| 0 <= i < j < sq.len() implies (#[trigger] sq[i]).price.spec_ticks() <= (
    #[trigger] sq[j]).price.spec_ticks() && (sq[i].price.spec_ticks() == sq[j].price.spec_ticks() ==> sq[i].id.0
        <= sq[j].id.0) by {
        assert(rank_le(Ranking::SellPriority)(sq[i], sq[j]));
    }
}

/// A side's queue is sorted under its ranking, and holds exactly the orders
/// of the batch eligible on that side at `p`.
proof fn lemma_queue_members(orders: Seq<Order>, p: u64, side: Side)
    ensures
        sorted_by(
            priority_queue(orders, p, side),
            rank_le(
                match side {
                    Side::Buy => Ranking::BuyPriority,
                    Side::Sell => Ranking::SellPriority,
                },
            ),
        ),
        forall|i: int|
            0 <= i < priority_queue(orders, p, side).len() ==> orders.contains(
                #[trigger] priority_queue(orders, p, side)[i],
            ) && eligible_at(p, side)(priority_queue(orders, p, side)[i]),
        forall|o: Order|
            orders.contains(o) && #[trigger] eligible_at(p, side)(o) ==> priority_queue(orders, p, side).contains(o),
{
    let how = match side {
        Side::Buy => Ranking::BuyPriority,
        Side::Sell => Ranking::SellPriority,
    };
    let kept = keep(orders, eligible_at(p, side));
    let queue = priority_queue(orders, p, side);
    lemma_rank_total(how);
    kept.lemma_sort_by_ensures(rank_le(how));
    assert forall|i: int| 0 <= i < queue.len() implies orders.contains(#[trigger] queue[i]) && eligible_at(p, side)(
        queue[i],
    ) by {
        assert(queue.to_multiset().count(queue[i]) > 0);
        assert(kept.contains(queue[i]));
        lemma_keep_members(orders, eligible_at(p, side), queue[i]);
    }
    assert forall|o: Order| orders.contains(o) && #[trigger] eligible_at(p, side)(o) implies queue.contains(o) by {
        lemma_keep_count(orders, eligible_at(p, side), o);
        assert(orders.to_multiset().count(o) > 0);
        assert(queue.to_multiset().count(o) > 0);
    }
}

/// `a` has a strictly better limit than `b` on `side`: a higher bid, or a
/// lower ask.
pub open spec fn better_limit(side: Side, a: Order, b: Order) -> bool {
    match side {
        Side::Buy => a.price.spec_ticks() > b.price.spec_ticks(),
        Side::Sell => a.price.spec_ticks() < b.price.spec_ticks(),
    }
}

/// With distinct ids, an order of the batch is known by its id.
proof fn lemma_same_id_same_order(orders: Seq<Order>, x: Order, y: Order)
    requires
        distinct_order_ids(orders),
        orders.contains(x),
        orders.contains(y),
        x.id == y.id,
    ensures
        x == y,
{
    let a = choose|a: int| 0 <= a < orders.len() && orders[a] == x;
    let b = choose|b: int| 0 <= b < orders.len() && orders[b] == y;
    if a != b {
        assert(orders[a].id != orders[b].id);
    }
}

/// In a queue where no order has a strictly better limit than one before it,
/// an order ahead in limit of the j-th filled order is filled in full earlier.
proof fn lemma_better_filled_first(q: Seq<Order>, m: nat, side: Side, j: int, a: int)
    requires
        positive_lots(q),
        forall|i: int, l: int| 0 <= i < l < q.len() ==> !better_limit(side, #[trigger] q[l], #[trigger] q[i]),
        0 <= j < greedy_fills(q, m, side).len(),
        0 <= a < q.len(),
        better_limit(side, q[a], q[j]),
    ensures
        a < j,
        greedy_fills(q, m, side)[a].order_id == q[a].id,
        greedy_fills(q, m, side)[a].quantity.spec_lots() == q[a].quantity.spec_lots(),
{
    lemma_greedy_shape(q, m, side);
    if a > j {
        assert(!better_limit(side, q[a], q[j]));
    }
}

/// Price priority in the fills of a cleared batch (orders with lots and
/// distinct ids): when an order receives a fill, every order on its side with
/// a strictly better limit has already been filled in full by an earlier
/// fill.
pub proof fn lemma_fills_by_price_priority(id: u64, orders: Seq<Order>, r: ResultView, k: int, o: Order, o2: Order)
    requires
        clears_to(id, orders, r),
        positive_lots(orders),
        distinct_order_ids(orders),
        0 <= k < r.fills.len(),
        orders.contains(o),
        orders.contains(o2),
        o2.id == r.fills[k].order_id,
        o.side == r.fills[k].side,
        better_limit(r.fills[k].side, o, o2),
    ensures
        exists|k2: int|
            0 <= k2 < k && (#[trigger] r.fills[k2]).order_id == o.id && r.fills[k2].quantity.spec_lots()
                == o.quantity.spec_lots(),
{
    let p = clearing_price_of(orders).unwrap();
    let m = matched_at(orders, p);
    let bq = priority_queue(orders, p, Side::Buy);
    let sq = priority_queue(orders, p, Side::Sell);
    let bf = greedy_fills(bq, m, Side::Buy);
    let sf = greedy_fills(sq, m, Side::Sell);
    assert(r.fills == allocation(orders, p, m));
    lemma_allocation_shape(orders, p, m);
    let buy = k < bf.len();
    let side = if buy { Side::Buy } else { Side::Sell };
    let q = if buy { bq } else { sq };
    let off: int = if buy { 0 } else { bf.len() as int };
    let j = k - off;
    assert(r.fills[k] == greedy_fills(q, m, side)[j]);
    assert(greedy_shape(q, m, side, greedy_fills(q, m, side)));
    lemma_queue_members(orders, p, side);
    lemma_queue_priority(orders, p);
    lemma_queue_positive(orders, p, side);
    assert(orders.contains(q[j]));
    lemma_same_id_same_order(orders, q[j], o2);
    assert(eligible_at(p, side)(o));
    let a = choose|a: int| 0 <= a < q.len() && q[a] == o;
    assert forall|i: int, l: int| 0 <= i < l < q.len() implies !better_limit(side, #[trigger] q[l], #[trigger] q[i]) by {}
    lemma_better_filled_first(q, m, side, j, a);
    assert(r.fills[a + off] == greedy_fills(q, m, side)[a]);
}

/// The allocation at price `p` of `m` units is the buy fills followed by the
/// sell fills. Each part fills a prefix of its side's priority queue (buys by
/// price descending, sells by price ascending, then by id), each order in
/// full but the last, and fills `m` units or that side's whole volume at `p`,
/// whichever is less.
pub proof fn lemma_allocation_shape(orders: Seq<Order>, p: u64, m: nat)
    requires
        positive_lots(orders),
    ensures
        ({
            let bq = priority_queue(orders, p, Side::Buy);
            let sq = priority_queue(orders, p, Side::Sell);
            let bf = greedy_fills(bq, m, Side::Buy);
            let sf = greedy_fills(sq, m, Side::Sell);
            &&& allocation(orders, p, m) == bf + sf
            &&& greedy_shape(bq, m, Side::Buy, bf)
            &&& greedy_shape(sq, m, Side::Sell, sf)
            &&& filled(bf, Side::Buy) == min_nat(m, demand(orders, p))
            &&& filled(sf, Side::Sell) == min_nat(m, supply(orders, p))
        }),
{
    lemma_queue_positive(orders, p, Side::Buy);
    lemma_queue_positive(orders, p, Side::Sell);
    lemma_greedy_shape(priority_queue(orders, p, Side::Buy), m, Side::Buy);
    lemma_greedy_shape(priority_queue(orders, p, Side::Sell), m, Side::Sell);
    lemma_queue_volume(orders, p, Side::Buy);
    lemma_queue_volume(orders, p, Side::Sell);
}

/// Conservation: clearing at a price with volume `matched_at(p)` fills exactly
/// that volume on the buy side and on the sell side.
pub proof fn lemma_allocation_conserves(orders: Seq<Order>, p: u64)
    ensures
        filled(allocation(orders, p, matched_at(orders, p)), Side::Buy) == matched_at(orders, p),
        filled(allocation(orders, p, matched_at(orders, p)), Side::Sell) == matched_at(orders, p),
{
    let m = matched_at(orders, p);
    let buys = greedy_fills(priority_queue(orders, p, Side::Buy), m, Side::Buy);
    let sells = greedy_fills(priority_queue(orders, p, Side::Sell), m, Side::Sell);
    lemma_queue_volume(orders, p, Side::Buy);
    lemma_queue_volume(orders, p, Side::Sell);
    lemma_greedy_volume(priority_queue(orders, p, Side::Buy), m, Side::Buy, Side::Sell);
    lemma_greedy_volume(priority_queue(orders, p, Side::Sell), m, Side::Sell, Side::Buy);
    lemma_sum_concat(buys, sells, fill_volume(Side::Buy));
    lemma_sum_concat(buys, sells, fill_volume(Side::Sell));
}

/// Every greedy fill takes a positive part of one order of the queue, never
/// more than that order's quantity.
proof fn lemma_greedy_fills_from_queue(queue: Seq<Order>, remaining: nat, side: Side, k: int)
    requires
        0 <= k < greedy_fills(queue, remaining, side).len(),
    ensures
        ({
            let f = greedy_fills(queue, remaining, side)[k];
            &&& f.side == side
            &&& 0 < f.quantity.spec_lots()
            &&& exists|i: int|
                0 <= i < queue.len() && (#[trigger] queue[i]).id == f.order_id
                    && f.quantity.spec_lots() <= queue[i].quantity.spec_lots()
        }),
    decreases queue.len(),
{
    let rest = queue.drop_first();
    let take = min_nat(queue[0].quantity.spec_lots() as nat, remaining);
    if take > 0 {
        if k == 0 {
            assert(queue[0].id == greedy_fills(queue, remaining, side)[k].order_id);
        } else {
            lemma_greedy_fills_from_queue(rest, (remaining - take) as nat, side, k - 1);
            let f = greedy_fills(queue, remaining, side)[k];
            let i = choose|i: int| 0 <= i < rest.len() && (#[trigger] rest[i]).id == f.order_id
                && f.quantity.spec_lots() <= rest[i].quantity.spec_lots();
            assert(queue[i + 1] == rest[i]);
        }
    } else {
        lemma_greedy_fills_from_queue(rest, remaining, side, k);
        let f = greedy_fills(queue, remaining, side)[k];
        let i = choose|i: int| 0 <= i < rest.len() && (#[trigger] rest[i]).id == f.order_id
            && f.quantity.spec_lots() <= rest[i].quantity.spec_lots();
        assert(queue[i + 1] == rest[i]);
    }
}

/// The elements that `keep` keeps come from the sequence and satisfy the predicate.
proof fn lemma_keep_members(s: Seq<Order>, pred: spec_fn(Order) -> bool, x: Order)
    requires
        keep(s, pred).contains(x),
    ensures
        s.contains(x),
        pred(x),
{
    lemma_keep_count(s, pred, x);
    assert(keep(s, pred).to_multiset().count(x) > 0);
}

/// Limits are respected: every fill of a batch cleared at `p` is a positive
/// part, at most the whole, of an order of the batch on the fill's side whose
/// limit allows trading at `p` (a buy at `p` or above, a sell at `p` or below).
pub proof fn lemma_fills_respect_limits(orders: Seq<Order>, p: u64, m: nat, k: int)
    requires
        0 <= k < allocation(orders, p, m).len(),
    ensures
        ({
            let f = allocation(orders, p, m)[k];
            &&& 0 < f.quantity.spec_lots()
            &&& exists|o: Order| #![trigger orders.contains(o)]
                orders.contains(o) && o.id == f.order_id && o.side == f.side
                    && f.quantity.spec_lots() <= o.quantity.spec_lots()
                    && eligible_at(p, f.side)(o)
        }),
{
    let buys = greedy_fills(priority_queue(orders, p, Side::Buy), m, Side::Buy);
    let sells = greedy_fills(priority_queue(orders, p, Side::Sell), m, Side::Sell);
    let side = if k < buys.len() { Side::Buy } else { Side::Sell };
    let how = match side {
        Side::Buy => Ranking::BuyPriority,
        Side::Sell => Ranking::SellPriority,
    };
    let kept = keep(orders, eligible_at(p, side));
    let queue = priority_queue(orders, p, side);
    let j = if k < buys.len() { k } else { k - buys.len() };
    assert(allocation(orders, p, m)[k] == greedy_fills(queue, m, side)[j]);
    lemma_greedy_fills_from_queue(queue, m, side, j);
    let f = allocation(orders, p, m)[k];
    let i = choose|i: int| 0 <= i < queue.len() && (#[trigger] queue[i]).id == f.order_id
        && f.quantity.spec_lots() <= queue[i].quantity.spec_lots();
    let o = queue[i];
    lemma_rank_total(how);
    kept.lemma_sort_by_ensures(rank_le(how));
    assert(queue.to_multiset().count(o) > 0);
    assert(kept.contains(o));
    lemma_keep_members(orders, eligible_at(p, side), o);
}

/// No two orders share an id.
pub open spec fn distinct_order_ids(orders: Seq<Order>) -> bool {
    forall|i: int, j: int| 0 <= i < orders.len() && 0 <= j < orders.len() && i != j ==> (#[trigger] orders[i]).id
        != (#[trigger] orders[j]).id
}

/// No two fills name the same order.
pub open spec fn distinct_fill_ids(fills: Seq<Fill>) -> bool {
    forall|i: int, j: int| 0 <= i < fills.len() && 0 <= j < fills.len() && i != j ==> (#[trigger] fills[i]).order_id
        != (#[trigger] fills[j]).order_id
}

/// `f` is a positive part, at most the whole, of an order of `orders` on the
/// fill's side whose limit allows trading at `p`.
pub open spec fn fill_allowed(orders: Seq<Order>, p: u64, f: Fill) -> bool {
    &&& 0 < f.quantity.spec_lots()
    &&& exists|o: Order| #![trigger orders.contains(o)]
        orders.contains(o) && o.id == f.order_id && o.side == f.side && f.quantity.spec_lots()
            <= o.quantity.spec_lots() && eligible_at(p, f.side)(o)
}

/// Greedy fills of a queue without repeated ids name each order at most once.
proof fn lemma_greedy_distinct(queue: Seq<Order>, remaining: nat, side: Side)
    requires
        distinct_order_ids(queue),
    ensures
        distinct_fill_ids(greedy_fills(queue, remaining, side)),
    decreases queue.len(),
{
    if queue.len() > 0 && remaining > 0 {
        let rest = queue.drop_first();
        let take = min_nat(queue[0].quantity.spec_lots() as nat, remaining);
        let r2 = if take > 0 { (remaining - take) as nat } else { remaining };
        assert forall|i: int, j: int| 0 <= i < rest.len() && 0 <= j < rest.len() && i != j implies (#[trigger] rest[i]).id
            != (#[trigger] rest[j]).id by {
            assert(rest[i] == queue[i + 1] && rest[j] == queue[j + 1]);
        }
        lemma_greedy_distinct(rest, r2, side);
        if take > 0 {
            let g = greedy_fills(queue, remaining, side);
            let tail = greedy_fills(rest, r2, side);
            assert forall|i: int, j: int| 0 <= i < g.len() && 0 <= j < g.len() && i != j implies (#[trigger] g[i]).order_id
                != (#[trigger] g[j]).order_id by {
                if i > 0 && j > 0 {
                    assert(g[i] == tail[i - 1] && g[j] == tail[j - 1]);
                } else {
                    let k = if i == 0 { j } else { i };
                    assert(g[k] == tail[k - 1]);
                    lemma_greedy_fills_from_queue(rest, r2, side, k - 1);
                    let a = choose|a: int| 0 <= a < rest.len() && (#[trigger] rest[a]).id == tail[k - 1].order_id
                        && tail[k - 1].quantity.spec_lots() <= rest[a].quantity.spec_lots();
                    assert(rest[a] == queue[a + 1]);
                    assert(g[0].order_id == queue[0].id);
                }
            }
        }
    }
}

/// The priority queue of a side repeats no id when the orders repeat none.
proof fn lemma_queue_distinct(orders: Seq<Order>, p: u64, side: Side)
    requires
        distinct_order_ids(orders),
    ensures
        distinct_order_ids(priority_queue(orders, p, side)),
{
    let how = match side {
        Side::Buy => Ranking::BuyPriority,
        Side::Sell => Ranking::SellPriority,
    };
    let kept = keep(orders, eligible_at(p, side));
    let queue = priority_queue(orders, p, side);
    lemma_rank_total(how);
    kept.lemma_sort_by_ensures(rank_le(how));
    assert(orders.no_duplicates());
    orders.lemma_multiset_has_no_duplicates();
    assert forall|x: Order| queue.to_multiset().contains(x) implies queue.to_multiset().count(x) == 1 by {
        lemma_keep_count(orders, eligible_at(p, side), x);
    }
    queue.lemma_multiset_has_no_duplicates_conv();
    assert forall|i: int, j: int| 0 <= i < queue.len() && 0 <= j < queue.len() && i != j implies (#[trigger] queue[i]).id
        != (#[trigger] queue[j]).id by {
        assert(queue.to_multiset().count(queue[i]) > 0);
        assert(queue.to_multiset().count(queue[j]) > 0);
        lemma_keep_count(orders, eligible_at(p, side), queue[i]);
        lemma_keep_count(orders, eligible_at(p, side), queue[j]);
        assert(orders.contains(queue[i]));
        assert(orders.contains(queue[j]));
        let a = choose|a: int| 0 <= a < orders.len() && orders[a] == queue[i];
        let b = choose|b: int| 0 <= b < orders.len() && orders[b] == queue[j];
        if a != b {
            assert(orders[a].id != orders[b].id);
        }
    }
}

/// The shape of the fills of a cleared batch: buy and sell fills each add up to
/// the matched quantity; all buy fills come before all sell fills; each fill is
/// a positive part, at most the whole, of an order on its side whose limit
/// allows the clearing price; and when order ids are distinct, no order is
/// filled twice.
pub proof fn lemma_cleared_fills(id: u64, orders: Seq<Order>, r: ResultView)
    requires
        volumes_fit(orders),
        clears_to(id, orders, r),
    ensures
        filled(r.fills, Side::Buy) == r.matched_quantity.spec_lots(),
        filled(r.fills, Side::Sell) == r.matched_quantity.spec_lots(),
        forall|i: int, j: int| 0 <= i < j < r.fills.len() && (#[trigger] r.fills[j]).side == Side::Buy ==> (
        #[trigger] r.fills[i]).side == Side::Buy,
        r.clearing_price matches Some(pr) ==> forall|k: int| 0 <= k < r.fills.len() ==> fill_allowed(
            orders,
            pr.spec_ticks(),
            #[trigger] r.fills[k],
        ),
        distinct_order_ids(orders) ==> distinct_fill_ids(r.fills),
{
    match clearing_price_of(orders) {
        None => {
            assert(filled(r.fills, Side::Buy) == 0);
            assert(filled(r.fills, Side::Sell) == 0);
        },
        Some(p) => {
            let m = matched_at(orders, p);
            let bq = priority_queue(orders, p, Side::Buy);
            let sq = priority_queue(orders, p, Side::Sell);
            let buys = greedy_fills(bq, m, Side::Buy);
            let sells = greedy_fills(sq, m, Side::Sell);
            assert(r.fills == buys + sells);
            lemma_volume_bounded(orders, p, Side::Buy);
            lemma_allocation_conserves(orders, p);
            assert forall|k: int| 0 <= k < r.fills.len() implies (#[trigger] r.fills[k]).side == (if k < buys.len() {
                Side::Buy
            } else {
                Side::Sell
            }) by {
                if k < buys.len() {
                    lemma_greedy_fills_from_queue(bq, m, Side::Buy, k);
                } else {
                    lemma_greedy_fills_from_queue(sq, m, Side::Sell, k - buys.len());
                }
            }
            assert forall|k: int| 0 <= k < r.fills.len() implies fill_allowed(orders, p, #[trigger] r.fills[k]) by {
                lemma_fills_respect_limits(orders, p, m, k);
            }
            if distinct_order_ids(orders) {
                lemma_queue_distinct(orders, p, Side::Buy);
                lemma_queue_distinct(orders, p, Side::Sell);
                lemma_greedy_distinct(bq, m, Side::Buy);
                lemma_greedy_distinct(sq, m, Side::Sell);
                assert forall|i: int, j: int| 0 <= i < r.fills.len() && 0 <= j < r.fills.len() && i != j implies (#[trigger] r.fills[i]).order_id
                    != (#[trigger] r.fills[j]).order_id by {
                    if i < buys.len() && j < buys.len() {
                        assert(r.fills[i] == buys[i] && r.fills[j] == buys[j]);
                    } else if i >= buys.len() && j >= buys.len() {
                        assert(r.fills[i] == sells[i - buys.len()] && r.fills[j] == sells[j - buys.len()]);
                    } else {
                        assert(fill_allowed(orders, p, r.fills[i]));
                        assert(fill_allowed(orders, p, r.fills[j]));
                        let oi = choose|o: Order| #![trigger orders.contains(o)]
                            orders.contains(o) && o.id == r.fills[i].order_id && o.side == r.fills[i].side
                                && r.fills[i].quantity.spec_lots() <= o.quantity.spec_lots()
                                && eligible_at(p, r.fills[i].side)(o);
                        let oj = choose|o: Order| #![trigger orders.contains(o)]
                            orders.contains(o) && o.id == r.fills[j].order_id && o.side == r.fills[j].side
                                && r.fills[j].quantity.spec_lots() <= o.quantity.spec_lots()
                                && eligible_at(p, r.fills[j].side)(o);
                        let a = choose|a: int| 0 <= a < orders.len() && orders[a] == oi;
                        let b = choose|b: int| 0 <= b < orders.len() && orders[b] == oj;
                        if a != b {
                            assert(orders[a].id != orders[b].id);
                        }
                    }
                }
            }
        },
    }
}

/// The best crossing price among `cands`, if any crosses.
proof fn lemma_best_among(orders: Seq<Order>, cands: Seq<u64>) -> (b: Option<u64>)
    ensures
        b matches Some(x) ==> crosses_at(orders, x) && forall|i: int|
            0 <= i < cands.len() && crosses_at(orders, #[trigger] cands[i]) && cands[i] != x ==> preferred(
                orders,
                x,
                cands[i],
            ),
        b is None ==> forall|i: int| 0 <= i < cands.len() ==> !crosses_at(orders, #[trigger] cands[i]),
    decreases cands.len(),
{
    if cands.len() == 0 {
        None
    } else {
        let n = cands.len() - 1;
        let rest = cands.drop_last();
        let last = cands.last();
        let b = lemma_best_among(orders, rest);
        assert forall|i: int| 0 <= i < rest.len() implies #[trigger] rest[i] == cands[i] by {}
        let r = if !crosses_at(orders, last) {
            b
        } else {
            match b {
                None => Some(last),
                Some(x) => {
                    if x == last || preferred(orders, x, last) {
                        Some(x)
                    } else {
                        Some(last)
                    }
                },
            }
        };
        assert forall|i: int| 0 <= i < cands.len() && #[trigger] crosses_at(orders, cands[i]) implies r is Some by {
            if i < n {
                assert(rest[i] == cands[i]);
            }
        }
        if let Some(y) = r {
            assert forall|i: int|
                0 <= i < cands.len() && crosses_at(orders, #[trigger] cands[i]) && cands[i] != y implies preferred(
                orders,
                y,
                cands[i],
            ) by {
                if i < n {
                    assert(rest[i] == cands[i]);
                    if let Some(x) = b {
                        if cands[i] != x && y != x {
                            assert(preferred(orders, x, cands[i]));
                            assert(preferred(orders, y, x));
                        }
                    }
                } else {
                    assert(cands[i] == last);
                }
            }
        }
        r
    }
}

/// Some price clears the orders as soon as some price crosses.
pub proof fn lemma_clearing_price_exists(orders: Seq<Order>, p: u64)
    requires
        crosses_at(orders, p),
    ensures
        exists|c: u64| is_clearing_price(orders, c),
        clearing_price_of(orders) is Some,
{
    let cands = Seq::new(orders.len(), |i: int| orders[i].price.spec_ticks());
    assert(is_order_price(orders, p));
    let ip = choose|i: int| 0 <= i < orders.len() && (#[trigger] orders[i]).price.spec_ticks() == p;
    assert(cands[ip] == p);
    let b = lemma_best_among(orders, cands);
    let x = b.unwrap();
    assert forall|q: u64| #[trigger] crosses_at(orders, q) && q != x implies preferred(orders, x, q) by {
        let i = choose|i: int| 0 <= i < orders.len() && (#[trigger] orders[i]).price.spec_ticks() == q;
        assert(cands[i] == q);
    }
    assert(is_clearing_price(orders, x));
}

/// The clearing price is optimal among the orders' own prices, judged by the
/// demand and supply sums at each price. It trades the most volume
/// (`min(demand, supply)`); among prices trading as much it has the smallest
/// `|demand - supply|`; and among those it is the lowest. When no price
/// clears, no order price trades anything.
pub proof fn lemma_clearing_price_optimal(id: u64, orders: Seq<Order>, r: ResultView)
    requires
        clears_to(id, orders, r),
    ensures
        r.clearing_price matches Some(pp) ==> {
            let p = pp.spec_ticks();
            let dp = demand(orders, p);
            let sp = supply(orders, p);
            let mp = if dp <= sp { dp } else { sp };
            let ip = if dp >= sp { dp - sp } else { sp - dp };
            &&& is_order_price(orders, p)
            &&& mp > 0
            &&& forall|q: u64| #[trigger]
                is_order_price(orders, q) ==> {
                    let dq = demand(orders, q);
                    let sq = supply(orders, q);
                    let mq = if dq <= sq { dq } else { sq };
                    let iq = if dq >= sq { dq - sq } else { sq - dq };
                    &&& mq <= mp
                    &&& mq == mp && q != p ==> ip < iq || (ip == iq && p < q)
                }
        },
        r.clearing_price is None ==> forall|q: u64| #[trigger]
            is_order_price(orders, q) ==> demand(orders, q) == 0 || supply(orders, q) == 0,
{
    match clearing_price_of(orders) {
        Some(p) => {
            let c = choose|c: u64| is_clearing_price(orders, c);
            assert(is_clearing_price(orders, p));
            assert forall|q: u64| #[trigger] is_order_price(orders, q) implies ({
                let dq = demand(orders, q);
                let sq = supply(orders, q);
                let mq = if dq <= sq { dq } else { sq };
                let iq = if dq >= sq { dq - sq } else { sq - dq };
                let dp = demand(orders, p);
                let sp = supply(orders, p);
                let mp = if dp <= sp { dp } else { sp };
                let ip = if dp >= sp { dp - sp } else { sp - dp };
                &&& mq <= mp
                &&& mq == mp && q != p ==> ip < iq || (ip == iq && p < q)
            }) by {
                if q != p && matched_at(orders, q) > 0 {
                    assert(crosses_at(orders, q));
                    assert(preferred(orders, p, q));
                }
            }
        },
        None => {
            assert forall|q: u64| #[trigger] is_order_price(orders, q) implies demand(orders, q) == 0 || supply(
                orders,
                q,
            ) == 0 by {
                if matched_at(orders, q) > 0 {
                    lemma_clearing_price_exists(orders, q);
                }
            }
        },
    }
}

/// No trade, no volume, no fills and no crossing price all come together.
pub proof fn lemma_no_trade_iff(id: u64, orders: Seq<Order>, r: ResultView)
    requires
        volumes_fit(orders),
        clears_to(id, orders, r),
    ensures
        r.clearing_price is None <==> r.matched_quantity.spec_lots() == 0,
        r.clearing_price is None <==> r.fills.len() == 0,
        r.clearing_price is None <==> forall|p: u64| !crosses_at(orders, p),
{
    lemma_cleared_fills(id, orders, r);
    if let Some(p) = clearing_price_of(orders) {
        let c = choose|c: u64| is_clearing_price(orders, c);
        assert(crosses_at(orders, c));
        lemma_volume_bounded(orders, p, Side::Buy);
        if r.fills.len() == 0 {
            assert(filled(r.fills, Side::Buy) == 0);
        }
    } else {
        assert forall|p: u64| !crosses_at(orders, p) by {
            if crosses_at(orders, p) {
                lemma_clearing_price_exists(orders, p);
            }
        }
    }
}

/// Clearing does not depend on the order in which orders arrived: the same
/// orders, in any order, give the same clearing price, volumes, fills and digest.
pub proof fn lemma_clearing_order_independent(a: Seq<Order>, b: Seq<Order>)
    requires
        a.to_multiset() == b.to_multiset(),
    ensures
        clearing_price_of(a) == clearing_price_of(b),
        forall|p: u64| #[trigger] matched_at(a, p) == matched_at(b, p),
        forall|p: u64, m: nat| #[trigger] allocation(a, p, m) == allocation(b, p, m),
        forall|id: u64| #[trigger] digest_of(id, a) == digest_of(id, b),
{
    assert forall|p: u64| demand(a, p) == demand(b, p) && supply(a, p) == supply(b, p) by {
        lemma_sum_permutation(a, b, buy_volume(p));
        lemma_sum_permutation(a, b, sell_volume(p));
    }
    assert forall|p: u64| #[trigger] is_order_price(a, p) == is_order_price(b, p) by {
        if is_order_price(a, p) {
            let i = choose|i: int| 0 <= i < a.len() && (#[trigger] a[i]).price.spec_ticks() == p;
            assert(a.to_multiset().count(a[i]) > 0);
            assert(b.contains(a[i]));
        }
        if is_order_price(b, p) {
            let i = choose|i: int| 0 <= i < b.len() && (#[trigger] b[i]).price.spec_ticks() == p;
            assert(b.to_multiset().count(b[i]) > 0);
            assert(a.contains(b[i]));
        }
    }
    assert forall|q: u64| #[trigger] crosses_at(a, q) == crosses_at(b, q) by {
        assert(is_order_price(a, q) == is_order_price(b, q));
        assert(demand(a, q) == demand(b, q) && supply(a, q) == supply(b, q));
    }
    assert forall|p: u64, q: u64| #[trigger] preferred(a, p, q) == preferred(b, p, q) by {
        assert(demand(a, q) == demand(b, q) && supply(a, q) == supply(b, q));
        assert(demand(a, p) == demand(b, p) && supply(a, p) == supply(b, p));
    }
    assert forall|p: u64| #[trigger] is_clearing_price(a, p) == is_clearing_price(b, p) by {
        if is_clearing_price(a, p) {
            assert forall|q: u64| #[trigger] crosses_at(b, q) && q != p implies preferred(b, p, q) by {
                assert(crosses_at(a, q));
                assert(preferred(a, p, q));
            }
            assert(crosses_at(b, p));
        }
        if is_clearing_price(b, p) {
            assert forall|q: u64| #[trigger] crosses_at(a, q) && q != p implies preferred(a, p, q) by {
                assert(crosses_at(b, q));
                assert(preferred(b, p, q));
            }
            assert(crosses_at(a, p));
        }
    }
    if exists|p: u64| is_clearing_price(a, p) {
        let p = choose|p: u64| is_clearing_price(a, p);
        lemma_clearing_price_of(a, p);
        lemma_clearing_price_of(b, p);
    } else if exists|p: u64| is_clearing_price(b, p) {
        let p = choose|p: u64| is_clearing_price(b, p);
        assert(is_clearing_price(a, p));
    }
    assert forall|p: u64, m: nat| #[trigger] allocation(a, p, m) == allocation(b, p, m) by {
        lemma_keep_permutation(a, b, buys_at(p));
        lemma_keep_permutation(a, b, sells_at(p));
        lemma_sorted_permutation(keep(a, buys_at(p)), keep(b, buys_at(p)), Ranking::BuyPriority);
        lemma_sorted_permutation(keep(a, sells_at(p)), keep(b, sells_at(p)), Ranking::SellPriority);
    }
    assert forall|id: u64| #[trigger] digest_of(id, a) == digest_of(id, b) by {
        lemma_digest_order_independent(id, a, b);
    }
}

/// Two batches with the same id and the same orders, in whatever order they
/// arrived, clear to the same price, volume, fills and digest.
pub proof fn lemma_clears_to_order_independent(
    id: u64,
    a: Seq<Order>,
    b: Seq<Order>,
    ra: ResultView,
    rb: ResultView,
)
    requires
        a.to_multiset() == b.to_multiset(),
        clears_to(id, a, ra),
        clears_to(id, b, rb),
    ensures
        ra.batch_id == rb.batch_id,
        ra.clearing_price == rb.clearing_price,
        ra.matched_quantity == rb.matched_quantity,
        ra.fills == rb.fills,
        ra.batch_digest.0@ == rb.batch_digest.0@,
{
    lemma_clearing_order_independent(a, b);
}

/// Demand at `p` from orders sorted by price, split where prices reach `p`:
/// everything at or after `j` demands what it demands at price zero, nothing
/// before `j` demands anything.
proof fn lemma_demand_split(orders: Seq<Order>, sorted: Seq<Order>, j: int, p: u64)
    requires
        sorted.to_multiset() == orders.to_multiset(),
        0 <= j <= sorted.len(),
        forall|a: int| 0 <= a < j ==> (#[trigger] sorted[a]).price.spec_ticks() < p,
        forall|a: int| j <= a < sorted.len() ==> (#[trigger] sorted[a]).price.spec_ticks() >= p,
    ensures
        demand(orders, p) + sum_of(sorted.take(j), buy_volume(0)) == demand(orders, 0),
{
    lemma_sum_permutation(orders, sorted, buy_volume(p));
    lemma_sum_permutation(orders, sorted, buy_volume(0));
    assert(sorted =~= sorted.take(j) + sorted.skip(j));
    lemma_sum_concat(sorted.take(j), sorted.skip(j), buy_volume(p));
    lemma_sum_concat(sorted.take(j), sorted.skip(j), buy_volume(0));
    assert forall|a: int| 0 <= a < sorted.take(j).len() implies buy_volume(p)(#[trigger] sorted.take(j)[a]) == 0 by {
        assert(sorted.take(j)[a] == sorted[a]);
    }
    lemma_sum_zeros(sorted.take(j), buy_volume(p));
    assert forall|a: int| 0 <= a < sorted.skip(j).len() implies buy_volume(p)(#[trigger] sorted.skip(j)[a])
        == buy_volume(0)(sorted.skip(j)[a]) by {
        assert(sorted.skip(j)[a] == sorted[j + a]);
    }
    lemma_sum_congruent(sorted.skip(j), buy_volume(p), buy_volume(0));
}

/// Supply at `p` from orders sorted by price, split where prices pass `p`:
/// everything before `j` supplies what it supplies at the top price, nothing
/// at or after `j` supplies anything.
proof fn lemma_supply_split(orders: Seq<Order>, sorted: Seq<Order>, j: int, p: u64)
    requires
        sorted.to_multiset() == orders.to_multiset(),
        0 <= j <= sorted.len(),
        forall|a: int| 0 <= a < j ==> (#[trigger] sorted[a]).price.spec_ticks() <= p,
        forall|a: int| j <= a < sorted.len() ==> (#[trigger] sorted[a]).price.spec_ticks() > p,
    ensures
        supply(orders, p) == sum_of(sorted.take(j), sell_volume(u64::MAX)),
{
    lemma_sum_permutation(orders, sorted, sell_volume(p));
    assert(sorted =~= sorted.take(j) + sorted.skip(j));
    lemma_sum_concat(sorted.take(j), sorted.skip(j), sell_volume(p));
    assert forall|a: int| 0 <= a < sorted.skip(j).len() implies sell_volume(p)(#[trigger] sorted.skip(j)[a]) == 0 by {
        assert(sorted.skip(j)[a] == sorted[j + a]);
    }
    lemma_sum_zeros(sorted.skip(j), sell_volume(p));
    assert forall|a: int| 0 <= a < sorted.take(j).len() implies sell_volume(p)(#[trigger] sorted.take(j)[a])
        == sell_volume(u64::MAX)(sorted.take(j)[a]) by {
        assert(sorted.take(j)[a] == sorted[a]);
    }
    lemma_sum_congruent(sorted.take(j), sell_volume(p), sell_volume(u64::MAX));
}

// ---------------------------------------------------------------------------
// Clearing
// ---------------------------------------------------------------------------

/// Strategy interface for clearing a sealed batch into a deterministic result.
pub trait AuctionEngine: Send + Sync {
    fn clear(&self, batch: &Batch) -> ClearingResult
        requires
            volumes_fit(batch.orders@),
    ;
}

/// Clears a batch at a single uniform price.
#[derive(Clone, Copy, Debug, Default)]
pub struct UniformPriceAuction;

impl AuctionEngine for UniformPriceAuction {
    fn clear(&self, batch: &Batch) -> (r: ClearingResult)
        ensures
            clears_to(batch.id, batch.orders@, r@),
            filled(r.fills@, Side::Buy) == r.matched_quantity.spec_lots(),
            filled(r.fills@, Side::Sell) == r.matched_quantity.spec_lots(),
            clearing_price_of(batch.orders@) is None <==> forall|p: u64| !crosses_at(batch.orders@, p),
    {
        clear_uniform(batch)
    }
}

/// The demand (for `Side::Buy`) or supply (for `Side::Sell`) at price `p`.
fn volume_at(orders: &[Order], p: u64, side: Side) -> (r: u64)
    requires
        volumes_fit(orders@),
    ensures
        r == sum_of(orders@, side_volume(p, side)),
{
    let ghost w = side_volume(p, side);
    proof {
        lemma_volume_bounded(orders@, p, side);
    }
    let mut total: u64 = 0;
    let mut i: usize = 0;
    while i < orders.len()
        invariant
            i <= orders@.len(),
            w == side_volume(p, side),
            sum_of(orders@, w) <= u64::MAX,
            total == sum_of(orders@.take(i as int), w),
        decreases orders@.len() - i,
    {
        let o = orders[i];
        proof {
            lemma_sum_take(orders@, i as int, w);
            lemma_sum_take_bounded(orders@, i + 1, w);
        }
        let t = o.price.ticks();
        let counts = match side {
            Side::Buy => o.side == Side::Buy && t >= p,
            Side::Sell => o.side == Side::Sell && t <= p,
        };
        if counts {
            total = total + o.quantity.lots();
        }
        i = i + 1;
    }
    assert(orders@.take(orders@.len() as int) =~= orders@);
    total
}

/// The orders that can fill on `side` at price `p`, in their order.
fn eligible_orders(orders: &[Order], p: u64, side: Side) -> (r: Vec<Order>)
    ensures
        r@ == keep(orders@, eligible_at(p, side)),
{
    let mut r: Vec<Order> = Vec::new();
    let mut i: usize = 0;
    while i < orders.len()
        invariant
            i <= orders@.len(),
            r@ == keep(orders@.take(i as int), eligible_at(p, side)),
        decreases orders@.len() - i,
    {
        let o = orders[i];
        proof {
            assert(orders@.take(i + 1).drop_last() =~= orders@.take(i as int));
            assert(orders@.take(i + 1).last() == o);
        }
        let t = o.price.ticks();
        let ok = match side {
            Side::Buy => o.side == Side::Buy && t >= p,
            Side::Sell => o.side == Side::Sell && t <= p,
        };
        if ok {
            r.push(o);
        }
        i = i + 1;
    }
    assert(orders@.take(orders@.len() as int) =~= orders@);
    r
}

/// Appends the fills of `orders`, taken in turn, until `remaining` is used up.
pub fn fill_side(orders: &[Order], remaining: u64, side: Side, out: &mut Vec<Fill>)
    ensures
        final(out)@ == old(out)@ + greedy_fills(orders@, remaining as nat, side),
{
    let mut left = remaining;
    let mut i: usize = 0;
    assert(orders@.skip(0) =~= orders@);
    while i < orders.len()
        invariant
            i <= orders@.len(),
            old(out)@ + greedy_fills(orders@, remaining as nat, side) == out@ + greedy_fills(
                orders@.skip(i as int),
                left as nat,
                side,
            ),
        decreases orders@.len() - i,
    {
        if left == 0 {
            assert(greedy_fills(orders@.skip(i as int), 0, side) =~= Seq::<Fill>::empty());
            assert(out@ + Seq::<Fill>::empty() =~= out@);
            return;
        }
        let o = orders[i];
        let lots = o.quantity.lots();
        let take = if lots <= left {
            lots
        } else {
            left
        };
        let ghost rest = orders@.skip(i as int);
        assert(rest[0] == o);
        assert(rest.drop_first() =~= orders@.skip(i + 1));
        if let Ok(q) = Quantity::new(take) {
            let f = Fill { order_id: o.id, side, quantity: q };
            assert(greedy_fills(rest, left as nat, side) == seq![f] + greedy_fills(
                orders@.skip(i + 1),
                (left - take) as nat,
                side,
            ));
            out.push(f);
            assert(out@ + greedy_fills(orders@.skip(i + 1), (left - take) as nat, side)
                =~= old(out)@ + greedy_fills(orders@, remaining as nat, side));
            left = left - take;
        }
        i = i + 1;
    }
    assert(greedy_fills(orders@.skip(i as int), left as nat, side) =~= Seq::<Fill>::empty());
    assert(out@ + Seq::<Fill>::empty() =~= out@);
}

/// The fills of `batch` cleared at `price` with `matched` units: buys by
/// (price desc, id asc), then sells by (price asc, id asc), each up to `matched`.
pub fn allocate(batch: &Batch, price: u64, matched: u64) -> (r: Vec<Fill>)
    ensures
        r@ == allocation(batch.orders@, price, matched as nat),
{
    let mut fills: Vec<Fill> = Vec::new();
    let buys = eligible_orders(batch.orders.as_slice(), price, Side::Buy);
    let buys = sorted_orders(buys.as_slice(), Ranking::BuyPriority);
    let sells = eligible_orders(batch.orders.as_slice(), price, Side::Sell);
    let sells = sorted_orders(sells.as_slice(), Ranking::SellPriority);
    fill_side(buys.as_slice(), matched, Side::Buy, &mut fills);
    fill_side(sells.as_slice(), matched, Side::Sell, &mut fills);
    assert(fills@ =~= allocation(batch.orders@, price, matched as nat));
    fills
}

/// The distinct limit prices of the orders, ascending.
fn distinct_prices(orders: &[Order]) -> (r: Vec<u64>)
    ensures
        forall|a: int, b: int| 0 <= a < b < r@.len() ==> r@[a] < r@[b],
        forall|a: int| 0 <= a < r@.len() ==> r@[a] > 0 && is_order_price(orders@, #[trigger] r@[a]),
        forall|p: u64| is_order_price(orders@, p) ==> r@.contains(p),
{
    let by_price = sorted_orders(orders, Ranking::SellPriority);
    let ghost sorted = by_price@;
    proof {
        lemma_rank_total(Ranking::SellPriority);
        orders@.lemma_sort_by_ensures(rank_le(Ranking::SellPriority));
    }
    let mut prices: Vec<u64> = Vec::new();
    let mut i: usize = 0;
    while i < by_price.len()
        invariant
            i <= sorted.len(),
            sorted == by_price@,
            vstd::relations::sorted_by(sorted, rank_le(Ranking::SellPriority)),
            forall|a: int, b: int| 0 <= a < b < prices@.len() ==> prices@[a] < prices@[b],
            forall|a: int| 0 <= a < prices@.len() ==> prices@[a] > 0,
            forall|a: int|
                0 <= a < prices@.len() ==> exists|j: int|
                    0 <= j < i && (#[trigger] sorted[j]).price.spec_ticks() == #[trigger] prices@[a],
            forall|j: int| 0 <= j < i ==> prices@.contains((#[trigger] sorted[j]).price.spec_ticks()),
            i == 0 <==> prices@.len() == 0,
            i > 0 ==> prices@.last() == sorted[i - 1].price.spec_ticks(),
        decreases sorted.len() - i,
    {
        let t = by_price[i].price.ticks();
        if i > 0 {
            assert(rank_le(Ranking::SellPriority)(sorted[i - 1], sorted[i as int]));
        }
        let n = prices.len();
        if n == 0 || prices[n - 1] != t {
            prices.push(t);
            assert(prices@[prices@.len() - 1] == t);
        }
        proof {
            assert forall|j: int| 0 <= j < i + 1 implies prices@.contains((#[trigger] sorted[j]).price.spec_ticks()) by {
                if j < i {
                    let x = sorted[j].price.spec_ticks();
                    assert(prices@.contains(x));
                } else {
                    assert(prices@.last() == t);
                    assert(prices@[prices@.len() - 1] == t);
                }
            }
        }
        i = i + 1;
    }
    proof {
        assert forall|a: int| 0 <= a < prices@.len() implies is_order_price(orders@, #[trigger] prices@[a]) by {
            let j = choose|j: int| 0 <= j < sorted.len() && (#[trigger] sorted[j]).price.spec_ticks() == prices@[a];
            assert(sorted.to_multiset().count(sorted[j]) > 0);
            assert(orders@.contains(sorted[j]));
            let k = choose|k: int| 0 <= k < orders@.len() && orders@[k] == sorted[j];
            assert(orders@[k].price.spec_ticks() == prices@[a]);
        }
        assert forall|p: u64| is_order_price(orders@, p) implies prices@.contains(p) by {
            let k = choose|k: int| 0 <= k < orders@.len() && (#[trigger] orders@[k]).price.spec_ticks() == p;
            assert(orders@.to_multiset().count(orders@[k]) > 0);
            assert(sorted.contains(orders@[k]));
            let j = choose|j: int| 0 <= j < sorted.len() && sorted[j] == orders@[k];
            assert(prices@.contains(sorted[j].price.spec_ticks()));
        }
    }
    prices
}

/// Clears a batch at its uniform clearing price, or reports no trade.
fn clear_uniform(batch: &Batch) -> (r: ClearingResult)
    requires
        volumes_fit(batch.orders@),
    ensures
        clears_to(batch.id, batch.orders@, r@),
        filled(r.fills@, Side::Buy) == r.matched_quantity.spec_lots(),
        filled(r.fills@, Side::Sell) == r.matched_quantity.spec_lots(),
        clearing_price_of(batch.orders@) is None <==> forall|p: u64| !crosses_at(batch.orders@, p),
{
    let ghost orders = batch.orders@;
    let digest = batch.digest();
    if batch.orders.len() == 0 {
        proof {
            assert forall|p: u64| !crosses_at(orders, p) by {}
            assert(!exists|p: u64| is_clearing_price(orders, p));
            assert(filled(Seq::<Fill>::empty(), Side::Buy) == 0);
            assert(filled(Seq::<Fill>::empty(), Side::Sell) == 0);
        }
        return ClearingResult {
            batch_id: BatchId(batch.id),
            clearing_price: None,
            matched_quantity: Quantity::zero(),
            fills: Vec::new(),
            batch_digest: digest,
        };
    }
    let prices = distinct_prices(batch.orders.as_slice());
    // Sweep the candidate prices upwards over the orders sorted by price,
    // keeping running sums: the buys priced below the candidate and the sells
    // priced at or below it.
    let sorted = sorted_orders(batch.orders.as_slice(), Ranking::SellPriority);
    let ghost ss = sorted@;
    let n = sorted.len();
    let total_buy = volume_at(batch.orders.as_slice(), 0, Side::Buy);
    proof {
        lemma_rank_total(Ranking::SellPriority);
        orders.lemma_sort_by_ensures(rank_le(Ranking::SellPriority));
        lemma_sum_permutation(orders, ss, buy_volume(0));
        lemma_sum_permutation(orders, ss, sell_volume(u64::MAX));
        assert forall|a: int| 0 <= a < ss.len() implies prices@.contains((#[trigger] ss[a]).price.spec_ticks()) by {
            assert(ss.to_multiset().count(ss[a]) > 0);
            assert(orders.contains(ss[a]));
            let i = choose|i: int| 0 <= i < orders.len() && orders[i] == ss[a];
            assert(is_order_price(orders, orders[i].price.spec_ticks()));
        }
        assert forall|a: int, b: int| 0 <= a < b < ss.len() implies (#[trigger] ss[a]).price.spec_ticks()
            <= (#[trigger] ss[b]).price.spec_ticks() by {
            assert(rank_le(Ranking::SellPriority)(ss[a], ss[b]));
        }
        assert(is_order_price(orders, orders[0].price.spec_ticks()));
        assert forall|a: int| 0 <= a < ss.len() implies (#[trigger] ss[a]).price.spec_ticks() >= prices@[0] by {
            let t = choose|t: int| 0 <= t < prices@.len() && prices@[t] == ss[a].price.spec_ticks();
            if t > 0 {
                assert(prices@[0] < prices@[t]);
            }
        }
    }
    let mut at: usize = 0;
    let mut buys_below: u64 = 0;
    let mut sells_upto: u64 = 0;
    let mut best: Option<(u64, u64, u64)> = None;
    let ghost mut best_at: int = 0;
    let mut k: usize = 0;
    while k < prices.len()
        invariant
            k <= prices@.len(),
            orders == batch.orders@,
            volumes_fit(orders),
            forall|a: int, b: int| 0 <= a < b < prices@.len() ==> prices@[a] < prices@[b],
            forall|a: int| 0 <= a < prices@.len() ==> prices@[a] > 0 && is_order_price(orders, #[trigger] prices@[a]),
            ss == sorted@,
            n == ss.len(),
            ss.to_multiset() == orders.to_multiset(),
            forall|a: int| 0 <= a < ss.len() ==> prices@.contains((#[trigger] ss[a]).price.spec_ticks()),
            forall|a: int, b: int| 0 <= a < b < ss.len() ==> (#[trigger] ss[a]).price.spec_ticks()
                <= (#[trigger] ss[b]).price.spec_ticks(),
            total_buy == demand(orders, 0),
            sum_of(ss, buy_volume(0)) == demand(orders, 0),
            sum_of(ss, sell_volume(u64::MAX)) == supply(orders, u64::MAX),
            at <= n,
            buys_below == sum_of(ss.take(at as int), buy_volume(0)),
            sells_upto == sum_of(ss.take(at as int), sell_volume(u64::MAX)),
            k < prices@.len() ==> forall|a: int| 0 <= a < at ==> (#[trigger] ss[a]).price.spec_ticks() < prices@[k as int],
            k < prices@.len() ==> forall|a: int| at <= a < n ==> (#[trigger] ss[a]).price.spec_ticks() >= prices@[k as int],
            best is None ==> forall|j: int| 0 <= j < k ==> matched_at(orders, #[trigger] prices@[j]) == 0,
            best matches Some(b) ==> {
                &&& 0 <= best_at < k
                &&& prices@[best_at] == b.0
                &&& b.1 == matched_at(orders, b.0)
                &&& b.1 > 0
                &&& b.2 == imbalance_at(orders, b.0)
                &&& forall|j: int|
                    0 <= j < k && matched_at(orders, #[trigger] prices@[j]) > 0 && prices@[j] != b.0
                        ==> preferred(orders, b.0, prices@[j])
            },
        decreases prices@.len() - k,
    {
        let p = prices[k];
        proof {
            lemma_demand_split(orders, ss, at as int, p);
        }
        let dem = total_buy - buys_below;
        let ghost first = at as int;
        while at < sorted.len() && sorted[at].price.ticks() == p
            invariant
                first <= at <= n,
                n == ss.len(),
                ss == sorted@,
                sum_of(ss, buy_volume(0)) == demand(orders, 0),
                sum_of(ss, sell_volume(u64::MAX)) == supply(orders, u64::MAX),
                volumes_fit(orders),
                buys_below == sum_of(ss.take(at as int), buy_volume(0)),
                sells_upto == sum_of(ss.take(at as int), sell_volume(u64::MAX)),
                forall|a: int| 0 <= a < first ==> (#[trigger] ss[a]).price.spec_ticks() < p,
                forall|a: int| first <= a < at ==> (#[trigger] ss[a]).price.spec_ticks() == p,
                forall|a: int| first <= a < n ==> (#[trigger] ss[a]).price.spec_ticks() >= p,
            decreases n - at,
        {
            proof {
                lemma_sum_take(ss, at as int, buy_volume(0));
                lemma_sum_take(ss, at as int, sell_volume(u64::MAX));
                lemma_sum_take_bounded(ss, at + 1, buy_volume(0));
                lemma_sum_take_bounded(ss, at + 1, sell_volume(u64::MAX));
            }
            let o = sorted[at];
            match o.side {
                Side::Buy => {
                    buys_below = buys_below + o.quantity.lots();
                },
                Side::Sell => {
                    sells_upto = sells_upto + o.quantity.lots();
                },
            }
            at = at + 1;
        }
        proof {
            assert forall|a: int| at <= a < n implies (#[trigger] ss[a]).price.spec_ticks() > p by {
                assert(ss[at as int].price.spec_ticks() != p);
                assert(ss[at as int].price.spec_ticks() <= ss[a].price.spec_ticks());
            }
            assert forall|a: int| 0 <= a < at implies (#[trigger] ss[a]).price.spec_ticks() <= p by {
                if a < first {
                    assert(ss[a].price.spec_ticks() < p);
                }
            }
            lemma_supply_split(orders, ss, at as int, p);
        }
        let sup = sells_upto;
        let matched = if dem <= sup {
            dem
        } else {
            sup
        };
        if matched != 0 {
            let imbalance = if dem >= sup {
                dem - sup
            } else {
                sup - dem
            };
            let keep_best = match best {
                Some((_, bm, bi)) => matched < bm || (matched == bm && imbalance >= bi),
                None => false,
            };
            if !keep_best {
                best = Some((p, matched, imbalance));
                proof {
                    best_at = k as int;
                }
            }
        }
        proof {
            if k + 1 < prices@.len() {
                assert forall|a: int| 0 <= a < at implies (#[trigger] ss[a]).price.spec_ticks() < prices@[k + 1] by {
                    assert(ss[a].price.spec_ticks() <= p);
                }
                assert forall|a: int| at <= a < n implies (#[trigger] ss[a]).price.spec_ticks() >= prices@[k + 1] by {
                    assert(prices@.contains(ss[a].price.spec_ticks()));
                    let t = choose|t: int| 0 <= t < prices@.len() && prices@[t] == ss[a].price.spec_ticks();
                    if t <= k {
                        if t < k {
                            assert(prices@[t] < prices@[k as int]);
                        }
                    } else if t > k + 1 {
                        assert(prices@[k + 1] < prices@[t]);
                    }
                }
            }
        }
        k = k + 1;
    }
    match best {
        None => {
            proof {
                assert forall|q: u64| !crosses_at(orders, q) by {
                    if crosses_at(orders, q) {
                        assert(prices@.contains(q));
                        let j = choose|j: int| 0 <= j < prices@.len() && prices@[j] == q;
                        assert(matched_at(orders, prices@[j]) == 0);
                    }
                }
                assert(!exists|p: u64| is_clearing_price(orders, p));
                assert(filled(Seq::<Fill>::empty(), Side::Buy) == 0);
                assert(filled(Seq::<Fill>::empty(), Side::Sell) == 0);
            }
            ClearingResult {
                batch_id: BatchId(batch.id),
                clearing_price: None,
                matched_quantity: Quantity::zero(),
                fills: Vec::new(),
                batch_digest: digest,
            }
        },
        Some((price_ticks, matched, _)) => {
            proof {
                assert forall|q: u64| #[trigger] crosses_at(orders, q) && q != price_ticks implies preferred(
                    orders,
                    price_ticks,
                    q,
                ) by {
                    assert(prices@.contains(q));
                    let j = choose|j: int| 0 <= j < prices@.len() && prices@[j] == q;
                    assert(matched_at(orders, prices@[j]) > 0);
                }
                assert(is_order_price(orders, prices@[best_at]));
                assert(is_clearing_price(orders, price_ticks));
                lemma_clearing_price_of(orders, price_ticks);
                lemma_allocation_conserves(orders, price_ticks);
            }
            let clearing_price = match Price::new(price_ticks) {
                Ok(p) => Some(p),
                Err(_) => None,
            };
            let matched_quantity = match Quantity::new(matched) {
                Ok(q) => q,
                Err(_) => Quantity::zero(),
            };
            let fills = allocate(batch, price_ticks, matched);
            ClearingResult {
                batch_id: BatchId(batch.id),
                clearing_price,
                matched_quantity,
                fills,
                batch_digest: digest,
            }
        },
    }
}

/// Whether the orders' total buy and total sell quantity each fit in a `u64`,
/// which clearing them asks.
pub fn volumes_fit_in(orders: &[Order]) -> (r: bool)
    ensures
        r == volumes_fit(orders@),
{
    let mut buys: u128 = 0;
    let mut sells: u128 = 0;
    let mut i: usize = 0;
    let limit: u128 = 0xffff_ffff_ffff_ffff;
    while i < orders.len()
        invariant
            i <= orders@.len(),
            limit == u64::MAX,
            buys == sum_of(orders@.take(i as int), buy_volume(0)),
            sells == sum_of(orders@.take(i as int), sell_volume(u64::MAX)),
            buys <= u64::MAX,
            sells <= u64::MAX,
        decreases orders@.len() - i,
    {
        proof {
            lemma_sum_take(orders@, i as int, buy_volume(0));
            lemma_sum_take(orders@, i as int, sell_volume(u64::MAX));
        }
        let o = orders[i];
        match o.side {
            Side::Buy => {
                buys = buys + o.quantity.lots() as u128;
            },
            Side::Sell => {
                sells = sells + o.quantity.lots() as u128;
            },
        }
        if buys > limit || sells > limit {
            proof {
                lemma_sum_take_bounded(orders@, i + 1, buy_volume(0));
                lemma_sum_take_bounded(orders@, i + 1, sell_volume(u64::MAX));
            }
            return false;
        }
        i = i + 1;
    }
    assert(orders@.take(orders@.len() as int) =~= orders@);
    true
}

} // verus!
