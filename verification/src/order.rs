//! Order model for the batch auction. Prices and quantities are integer
//! newtypes (fixed-point), so clearing involves no floating point.

use vstd::prelude::*;

use crate::error::SeqError;

verus! {

/// Buy or sell.
#[derive(Clone, Copy, Debug, PartialEq, Eq, Hash, Structural)]
pub enum Side {
    Buy,
    Sell,
}

/// A limit price in integer ticks. A price built by [`Price::new`] is never zero.
#[derive(Clone, Copy, Debug, PartialEq, Eq, PartialOrd, Ord, Hash, Structural)]
pub struct Price(u64);

impl Price {
    /// The number of ticks this price stands for.
    pub closed spec fn spec_ticks(self) -> u64 {
        self.0
    }

    /// The price of `ticks` ticks, as a mathematical value.
    pub closed spec fn of(ticks: u64) -> Price {
        Price(ticks)
    }

    /// A price of `ticks` ticks; zero is refused.
    pub fn new(ticks: u64) -> (r: Result<Price, SeqError>)
        ensures
            ticks == 0 ==> r == Err::<Price, SeqError>(SeqError::ZeroPrice),
            ticks != 0 ==> r == Ok::<Price, SeqError>(Price::of(ticks)),
    {
        if ticks == 0 {
            return Err(SeqError::ZeroPrice);
        }
        Ok(Price(ticks))
    }

    #[verifier::type_invariant]
    spec fn positive(self) -> bool {
        self.0 > 0
    }

    /// The number of ticks; never zero.
    pub fn ticks(self) -> (r: u64)
        ensures
            r == self.spec_ticks(),
            r > 0,
    {
        proof {
            use_type_invariant(self);
        }
        self.0
    }
}

/// `Price::of` and `spec_ticks` are inverse to each other.
pub broadcast proof fn lemma_price_of_ticks(ticks: u64)
    ensures
        #[trigger] Price::of(ticks).spec_ticks() == ticks,
{
}

/// A price is determined by its number of ticks.
pub broadcast proof fn lemma_price_from_ticks(p: Price)
    ensures
        #[trigger] Price::of(p.spec_ticks()) == p,
{
}

/// An order quantity in integer lots.
#[derive(Clone, Copy, Debug, PartialEq, Eq, PartialOrd, Ord, Hash, Structural)]
pub struct Quantity(u64);

impl Quantity {
    /// The number of lots this quantity stands for.
    pub closed spec fn spec_lots(self) -> u64 {
        self.0
    }

    /// The quantity of `lots` lots, as a mathematical value.
    pub closed spec fn of(lots: u64) -> Quantity {
        Quantity(lots)
    }

    /// A quantity of `lots` lots; zero is refused.
    pub fn new(lots: u64) -> (r: Result<Quantity, SeqError>)
        ensures
            lots == 0 ==> r == Err::<Quantity, SeqError>(SeqError::ZeroQuantity),
            lots != 0 ==> r == Ok::<Quantity, SeqError>(Quantity::of(lots)),
    {
        if lots == 0 {
            return Err(SeqError::ZeroQuantity);
        }
        Ok(Quantity(lots))
    }

    /// The additive identity: a valid "nothing matched" quantity.
    pub fn zero() -> (r: Quantity)
        ensures
            r == Quantity::of(0),
    {
        Quantity(0)
    }

    pub fn lots(self) -> (r: u64)
        ensures
            r == self.spec_lots(),
    {
        self.0
    }

    /// The smaller of the two quantities.
    pub fn min(self, other: Quantity) -> (r: Quantity)
        ensures
            r == Quantity::of(if self.spec_lots() <= other.spec_lots() {
                self.spec_lots()
            } else {
                other.spec_lots()
            }),
    {
        if self.0 <= other.0 {
            Quantity(self.0)
        } else {
            Quantity(other.0)
        }
    }

    /// `self - other`, or zero where `other` is the larger.
    pub fn saturating_sub(self, other: Quantity) -> (r: Quantity)
        ensures
            r == Quantity::of(if self.spec_lots() >= other.spec_lots() {
                (self.spec_lots() - other.spec_lots()) as u64
            } else {
                0
            }),
    {
        if self.0 >= other.0 {
            Quantity(self.0 - other.0)
        } else {
            Quantity(0)
        }
    }
}

/// `Quantity::of` and `spec_lots` are inverse to each other.
pub broadcast proof fn lemma_quantity_of_lots(lots: u64)
    ensures
        #[trigger] Quantity::of(lots).spec_lots() == lots,
{
}

/// A quantity is determined by its number of lots.
pub broadcast proof fn lemma_quantity_from_lots(q: Quantity)
    ensures
        #[trigger] Quantity::of(q.spec_lots()) == q,
{
}

pub broadcast group group_order_values {
    lemma_price_of_ticks,
    lemma_price_from_ticks,
    lemma_quantity_of_lots,
    lemma_quantity_from_lots,
}

/// A monotonically assigned order identifier.
#[derive(Clone, Copy, Debug, PartialEq, Eq, PartialOrd, Ord, Hash, Structural)]
pub struct OrderId(pub u64);

/// A limit order submitted to the sequencer.
#[derive(Clone, Copy, Debug, PartialEq, Eq, Structural)]
pub struct Order {
    pub id: OrderId,
    pub side: Side,
    pub price: Price,
    pub quantity: Quantity,
}

impl Order {
    /// What `Order::new` gives back for these arguments.
    pub open spec fn spec_new(id: u64, side: Side, price: u64, quantity: u64) -> Result<Order, SeqError> {
        if price == 0 {
            Err(SeqError::ZeroPrice)
        } else if quantity == 0 {
            Err(SeqError::ZeroQuantity)
        } else {
            Ok(Order { id: OrderId(id), side, price: Price::of(price), quantity: Quantity::of(quantity) })
        }
    }

    /// An order; a zero price is refused first, then a zero quantity.
    pub fn new(id: u64, side: Side, price: u64, quantity: u64) -> (r: Result<Order, SeqError>)
        ensures
            r == Order::spec_new(id, side, price, quantity),
    {
        let price = Price::new(price)?;
        let quantity = Quantity::new(quantity)?;
        Ok(Order { id: OrderId(id), side, price, quantity })
    }
}

} // verus!
