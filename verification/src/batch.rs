//! Batch and clearing-result model. A [`Batch`] is a set of orders sealed for a
//! single auction round; [`ClearingResult`] is its deterministic outcome.

use vstd::prelude::*;

use crate::digest::{keccak256, keccak256_of, Digest};
use crate::order::{Order, OrderId, Price, Quantity, Side};
use crate::ranking::{lemma_rank_total, lemma_sorted_permutation, rank_le, sorted_orders, Ranking};

verus! {

broadcast use crate::order::group_order_values;

/// Monotonic auction-round identifier (there are no blocks, just ordered rounds).
#[derive(Clone, Copy, Debug, PartialEq, Eq, PartialOrd, Ord, Hash, Structural)]
pub struct BatchId(pub u64);

/// A sealed set of orders to be cleared in one auction round.
#[derive(Clone, Debug, Default, PartialEq, Eq)]
pub struct Batch {
    pub id: u64,
    pub orders: Vec<Order>,
}

impl Batch {
    pub fn new(id: u64, orders: Vec<Order>) -> (r: Batch)
        ensures
            r.id == id,
            r.orders@ == orders@,
    {
        Batch { id, orders }
    }

    pub fn is_empty(&self) -> (r: bool)
        ensures
            r <==> self.orders@.len() == 0,
    {
        self.orders.len() == 0
    }

    pub fn len(&self) -> (r: usize)
        ensures
            r == self.orders@.len(),
    {
        self.orders.len()
    }
}

/// The eight big-endian bytes of `x`.
pub open spec fn be_bytes(x: u64) -> Seq<u8> {
    seq![
        (x >> 56u64) as u8,
        (x >> 48u64) as u8,
        (x >> 40u64) as u8,
        (x >> 32u64) as u8,
        (x >> 24u64) as u8,
        (x >> 16u64) as u8,
        (x >> 8u64) as u8,
        x as u8,
    ]
}

/// The byte that stands for a side in a digest.
pub open spec fn side_byte(side: Side) -> u8 {
    match side {
        Side::Buy => 0,
        Side::Sell => 1,
    }
}

/// The 25 bytes that an order contributes to a digest: id, side, price, quantity.
pub open spec fn encode_order(o: Order) -> Seq<u8> {
    be_bytes(o.id.0) + seq![side_byte(o.side)] + be_bytes(o.price.spec_ticks()) + be_bytes(
        o.quantity.spec_lots(),
    )
}

/// The orders' encodings one after another.
pub open spec fn encode_orders(orders: Seq<Order>) -> Seq<u8>
    decreases orders.len(),
{
    if orders.len() == 0 {
        Seq::empty()
    } else {
        encode_orders(orders.drop_last()) + encode_order(orders.last())
    }
}

/// What a batch digest hashes: the batch id, then the orders sorted by content.
pub open spec fn digest_preimage(id: u64, orders: Seq<Order>) -> Seq<u8> {
    be_bytes(id) + encode_orders(orders.sort_by(rank_le(Ranking::ByContent)))
}

/// The digest of a batch with this id and these orders.
pub open spec fn digest_of(id: u64, orders: Seq<Order>) -> Seq<u8> {
    keccak256_of(digest_preimage(id, orders))
}

fn push_be_bytes(buf: &mut Vec<u8>, x: u64)
    ensures
        final(buf)@ == old(buf)@ + be_bytes(x),
{
    buf.push((x >> 56u64) as u8);
    buf.push((x >> 48u64) as u8);
    buf.push((x >> 40u64) as u8);
    buf.push((x >> 32u64) as u8);
    buf.push((x >> 24u64) as u8);
    buf.push((x >> 16u64) as u8);
    buf.push((x >> 8u64) as u8);
    buf.push(x as u8);
    assert(buf@ =~= old(buf)@ + be_bytes(x));
}

impl Batch {
    /// Content digest binding the set of orders to the batch id. The orders are
    /// sorted first, so the digest does not depend on their arrival order.
    pub fn digest(&self) -> (r: Digest)
        ensures
            r.0@ == digest_of(self.id, self.orders@),
    {
        let sorted = sorted_orders(self.orders.as_slice(), Ranking::ByContent);
        let mut buf: Vec<u8> = Vec::new();
        push_be_bytes(&mut buf, self.id);
        let mut i: usize = 0;
        while i < sorted.len()
            invariant
                i <= sorted@.len(),
                buf@ == be_bytes(self.id) + encode_orders(sorted@.take(i as int)),
            decreases sorted@.len() - i,
        {
            let o = sorted[i];
            let ghost before = buf@;
            push_be_bytes(&mut buf, o.id.0);
            let side: u8 = match o.side {
                Side::Buy => 0,
                Side::Sell => 1,
            };
            buf.push(side);
            push_be_bytes(&mut buf, o.price.ticks());
            push_be_bytes(&mut buf, o.quantity.lots());
            proof {
                assert(sorted@.take(i + 1).drop_last() =~= sorted@.take(i as int));
                assert(sorted@.take(i + 1).last() == o);
                assert(buf@ =~= before + encode_order(o));
            }
            i = i + 1;
        }
        assert(sorted@.take(sorted@.len() as int) =~= sorted@);
        keccak256(buf.as_slice())
    }
}

/// The digest does not depend on the order in which the batch's orders arrived.
pub proof fn lemma_digest_order_independent(id: u64, a: Seq<Order>, b: Seq<Order>)
    requires
        a.to_multiset() == b.to_multiset(),
    ensures
        digest_preimage(id, a) == digest_preimage(id, b),
        digest_of(id, a) == digest_of(id, b),
{
    lemma_sorted_permutation(a, b, Ranking::ByContent);
}

/// Eight big-endian bytes determine the number.
proof fn lemma_be_bytes_injective(x: u64, y: u64)
    requires
        be_bytes(x) == be_bytes(y),
    ensures
        x == y,
{
    assert(be_bytes(x)[0] == be_bytes(y)[0]);
    assert(be_bytes(x)[1] == be_bytes(y)[1]);
    assert(be_bytes(x)[2] == be_bytes(y)[2]);
    assert(be_bytes(x)[3] == be_bytes(y)[3]);
    assert(be_bytes(x)[4] == be_bytes(y)[4]);
    assert(be_bytes(x)[5] == be_bytes(y)[5]);
    assert(be_bytes(x)[6] == be_bytes(y)[6]);
    assert(be_bytes(x)[7] == be_bytes(y)[7]);
    assert(x == y) by (bit_vector)
        requires
            (x >> 56u64) as u8 == (y >> 56u64) as u8,
            (x >> 48u64) as u8 == (y >> 48u64) as u8,
            (x >> 40u64) as u8 == (y >> 40u64) as u8,
            (x >> 32u64) as u8 == (y >> 32u64) as u8,
            (x >> 24u64) as u8 == (y >> 24u64) as u8,
            (x >> 16u64) as u8 == (y >> 16u64) as u8,
            (x >> 8u64) as u8 == (y >> 8u64) as u8,
            x as u8 == y as u8,
    ;
}

/// An order's encoding determines the order.
proof fn lemma_encode_order_injective(a: Order, b: Order)
    requires
        encode_order(a) == encode_order(b),
    ensures
        a == b,
{
    let ea = encode_order(a);
    let eb = encode_order(b);
    assert(ea.subrange(0, 8) =~= be_bytes(a.id.0));
    assert(eb.subrange(0, 8) =~= be_bytes(b.id.0));
    assert(ea.subrange(9, 17) =~= be_bytes(a.price.spec_ticks()));
    assert(eb.subrange(9, 17) =~= be_bytes(b.price.spec_ticks()));
    assert(ea.subrange(17, 25) =~= be_bytes(a.quantity.spec_lots()));
    assert(eb.subrange(17, 25) =~= be_bytes(b.quantity.spec_lots()));
    assert(ea[8] == side_byte(a.side) && eb[8] == side_byte(b.side));
    lemma_be_bytes_injective(a.id.0, b.id.0);
    lemma_be_bytes_injective(a.price.spec_ticks(), b.price.spec_ticks());
    lemma_be_bytes_injective(a.quantity.spec_lots(), b.quantity.spec_lots());
    assert(Price::of(a.price.spec_ticks()) == a.price);
    assert(Price::of(b.price.spec_ticks()) == b.price);
    assert(Quantity::of(a.quantity.spec_lots()) == a.quantity);
    assert(Quantity::of(b.quantity.spec_lots()) == b.quantity);
}

/// Each order takes 25 bytes.
proof fn lemma_encode_orders_len(s: Seq<Order>)
    ensures
        encode_orders(s).len() == 25 * s.len(),
    decreases s.len(),
{
    if s.len() > 0 {
        lemma_encode_orders_len(s.drop_last());
    }
}

/// The encoding of a list of orders determines the list.
proof fn lemma_encode_orders_injective(s: Seq<Order>, t: Seq<Order>)
    requires
        encode_orders(s) == encode_orders(t),
    ensures
        s == t,
    decreases s.len(),
{
    lemma_encode_orders_len(s);
    lemma_encode_orders_len(t);
    if s.len() == 0 {
        assert(s =~= t);
    } else {
        let n = s.len() as int;
        lemma_encode_orders_len(s.drop_last());
        lemma_encode_orders_len(t.drop_last());
        let es = encode_orders(s);
        assert(es.subrange(0, 25 * (n - 1)) =~= encode_orders(s.drop_last()));
        assert(es.subrange(25 * (n - 1), 25 * n) =~= encode_order(s.last()));
        assert(es.subrange(0, 25 * (n - 1)) =~= encode_orders(t.drop_last()));
        assert(es.subrange(25 * (n - 1), 25 * n) =~= encode_order(t.last()));
        lemma_encode_orders_injective(s.drop_last(), t.drop_last());
        lemma_encode_order_injective(s.last(), t.last());
        assert(s =~= s.drop_last().push(s.last()));
        assert(t =~= t.drop_last().push(t.last()));
    }
}

/// The digest binds the set of orders to the batch id: batches whose hashed
/// bytes are equal have the same id and the same orders, whatever their order.
pub proof fn lemma_preimage_binds(id1: u64, a: Seq<Order>, id2: u64, b: Seq<Order>)
    requires
        digest_preimage(id1, a) == digest_preimage(id2, b),
    ensures
        id1 == id2,
        a.to_multiset() == b.to_multiset(),
{
    let sa = a.sort_by(rank_le(Ranking::ByContent));
    let sb = b.sort_by(rank_le(Ranking::ByContent));
    let p = digest_preimage(id1, a);
    assert(p.subrange(0, 8) =~= be_bytes(id1));
    assert(p.subrange(0, 8) =~= be_bytes(id2));
    lemma_be_bytes_injective(id1, id2);
    assert(p.subrange(8, p.len() as int) =~= encode_orders(sa));
    assert(p.subrange(8, p.len() as int) =~= encode_orders(sb));
    lemma_encode_orders_injective(sa, sb);
    lemma_rank_total(Ranking::ByContent);
    a.lemma_sort_by_ensures(rank_le(Ranking::ByContent));
    b.lemma_sort_by_ensures(rank_le(Ranking::ByContent));
}

/// A single matched trade produced by clearing.
#[derive(Clone, Copy, Debug, PartialEq, Eq, Structural)]
pub struct Fill {
    pub order_id: OrderId,
    pub side: Side,
    pub quantity: Quantity,
}

/// Deterministic result of clearing a batch at a single uniform price.
#[derive(Clone, Debug, PartialEq, Eq)]
pub struct ClearingResult {
    pub batch_id: BatchId,
    /// The uniform clearing price, or `None` if nothing crossed.
    pub clearing_price: Option<Price>,
    /// Total matched quantity (buy side == sell side).
    pub matched_quantity: Quantity,
    pub fills: Vec<Fill>,
    /// Digest of the sealed batch (what validators attest to).
    pub batch_digest: Digest,
}

/// A clearing result as a mathematical value.
pub struct ResultView {
    pub batch_id: BatchId,
    pub clearing_price: Option<Price>,
    pub matched_quantity: Quantity,
    pub fills: Seq<Fill>,
    pub batch_digest: Digest,
}

impl View for ClearingResult {
    type V = ResultView;

    open spec fn view(&self) -> ResultView {
        ResultView {
            batch_id: self.batch_id,
            clearing_price: self.clearing_price,
            matched_quantity: self.matched_quantity,
            fills: self.fills@,
            batch_digest: self.batch_digest,
        }
    }
}

impl ClearingResult {
    /// A copy of the result.
    pub fn copy(&self) -> (r: ClearingResult)
        ensures
            r@ == self@,
    {
        let mut fills: Vec<Fill> = Vec::new();
        let mut i: usize = 0;
        while i < self.fills.len()
            invariant
                i <= self.fills@.len(),
                fills@ == self.fills@.take(i as int),
            decreases self.fills@.len() - i,
        {
            fills.push(self.fills[i]);
            i = i + 1;
            assert(fills@ =~= self.fills@.take(i as int));
        }
        assert(fills@ =~= self.fills@);
        ClearingResult {
            batch_id: self.batch_id,
            clearing_price: self.clearing_price,
            matched_quantity: self.matched_quantity,
            fills,
            batch_digest: self.batch_digest,
        }
    }

    pub fn is_no_trade(&self) -> (r: bool)
        ensures
            r <==> self.clearing_price is None,
    {
        self.clearing_price.is_none()
    }
}

} // verus!
