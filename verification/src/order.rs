//! Orders: identity, terms and fill state.

use crate::amount::Amount;
use vstd::prelude::*;

verus! {

/// The side of the book that an order belongs to.
#[derive(Clone, Copy, Debug, PartialEq, Eq, Structural)]
pub enum Side {
    Bid,
    Ask,
}

impl Side {
    /// The side that an order of this side trades against.
    pub open spec fn opposite(self) -> Side {
        match self {
            Side::Bid => Side::Ask,
            Side::Ask => Side::Bid,
        }
    }

    /// Whether price `p` has priority over price `q` on this side: the
    /// higher bid, the lower ask.
    pub open spec fn better(self, p: Amount, q: Amount) -> bool {
        match self {
            Side::Bid => p.units() > q.units(),
            Side::Ask => p.units() < q.units(),
        }
    }
}

/// Whether an order names its worst acceptable price.
#[derive(Clone, Copy, Debug, PartialEq, Eq, Structural)]
pub enum OrderType {
    Limit,
    Market,
}

/// Where an order stands in its life.
#[derive(Clone, Copy, Debug, PartialEq, Eq, Structural)]
pub enum OrderStatus {
    New,
    PartiallyFilled,
    Filled,
    Rejected,
}

/// An instant: seconds since the Unix epoch and nanoseconds within the second.
#[derive(Clone, Copy, Debug, PartialEq, Eq, Structural)]
pub struct Timestamp {
    pub seconds: i64,
    pub nanos: u32,
}

impl Timestamp {
    /// Whether `self` is no later than `other`.
    pub open spec fn at_or_before(self, other: Timestamp) -> bool {
        self.seconds < other.seconds || (self.seconds == other.seconds && self.nanos <= other.nanos)
    }
}

/// The status that goes with a fill state: `Filled` when nothing remains,
/// `New` when everything does, `PartiallyFilled` in between.
pub open spec fn fill_status(quantity: Amount, remaining: Amount) -> OrderStatus {
    if remaining.units() == 0 {
        OrderStatus::Filled
    } else if remaining.units() == quantity.units() {
        OrderStatus::New
    } else {
        OrderStatus::PartiallyFilled
    }
}

/// One order: who it is, what it asks for, and how much of it is still open.
#[derive(Clone, Copy, Debug, PartialEq, Eq, Structural)]
pub struct Order {
    pub id: u64,
    pub side: Side,
    pub order_type: OrderType,
    pub price: Amount,
    pub quantity: Amount,
    pub remaining_quantity: Amount,
    pub status: OrderStatus,
    pub timestamp: Timestamp,
    /// The number of digits after the point that the price is written
    /// with at least.
    pub price_scale: u32,
    /// The same for the quantity.
    pub quantity_scale: u32,
    /// The same for the open part: the greatest scale among the quantity
    /// and the trades so far.
    pub remaining_scale: u32,
}

impl Order {
    /// Terms that the engine accepts: well-formed amounts, a positive
    /// quantity, and for a limit order a positive price.
    pub open spec fn acceptable_terms(self) -> bool {
        &&& self.price.wf()
        &&& self.quantity.wf()
        &&& self.remaining_quantity.wf()
        &&& self.quantity.units() > 0
        &&& (self.order_type == OrderType::Limit ==> self.price.units() > 0)
    }

    /// Nothing has been executed yet.
    pub open spec fn is_fresh(self) -> bool {
        &&& self.remaining_quantity == self.quantity
        &&& self.remaining_scale == self.quantity_scale
        &&& self.status == OrderStatus::New
    }

    /// A live order: acceptable terms, an open part no larger than the
    /// quantity, and the status that goes with it.
    pub open spec fn wf(self) -> bool {
        &&& self.acceptable_terms()
        &&& self.remaining_quantity.units() <= self.quantity.units()
        &&& self.status == fill_status(self.quantity, self.remaining_quantity)
    }

    /// The order after `qty` more of it has been executed, where `qty` is
    /// written with `scale` digits after the point.
    pub open spec fn executed(self, qty: Amount, scale: u32) -> Order {
        let remaining = Amount::from_units((self.remaining_quantity.units() - qty.units()) as nat);
        Order {
            remaining_quantity: remaining,
            remaining_scale: if scale > self.remaining_scale {
                scale
            } else {
                self.remaining_scale
            },
            status: fill_status(self.quantity, remaining),
            ..self
        }
    }

    /// The order with its price and its quantities written with the given
    /// numbers of digits after the point.
    pub open spec fn scaled(self, price_scale: u32, quantity_scale: u32) -> Order {
        Order { price_scale, quantity_scale, remaining_scale: quantity_scale, ..self }
    }

    /// The order as rejected: its terms, with status `Rejected`.
    pub open spec fn rejected(self) -> Order {
        Order { status: OrderStatus::Rejected, ..self }
    }

    /// A fresh order with the given terms.
    pub fn new(
        id: u64,
        price: Amount,
        quantity: Amount,
        side: Side,
        order_type: OrderType,
        timestamp: Timestamp,
    ) -> (r: Order)
        ensures
            r == (Order {
                id,
                side,
                order_type,
                price,
                quantity,
                remaining_quantity: quantity,
                status: OrderStatus::New,
                timestamp,
                price_scale: 0,
                quantity_scale: 0,
                remaining_scale: 0,
            }),
            r.is_fresh(),
    {
        Order {
            id,
            side,
            order_type,
            price,
            quantity,
            remaining_quantity: quantity,
            status: OrderStatus::New,
            timestamp,
            price_scale: 0,
            quantity_scale: 0,
            remaining_scale: 0,
        }
    }

    /// The order with its price and its quantities written with the given
    /// numbers of digits after the point.
    pub fn with_scales(self, price_scale: u32, quantity_scale: u32) -> (r: Order)
        ensures
            r == self.scaled(price_scale, quantity_scale),
    {
        let mut r = self;
        r.price_scale = price_scale;
        r.quantity_scale = quantity_scale;
        r.remaining_scale = quantity_scale;
        r
    }

    /// Whether the order is fresh and its terms are acceptable.
    pub fn is_valid(&self) -> (r: bool)
        ensures
            r == (self.acceptable_terms() && self.is_fresh()),
    {
        let amounts_wf = self.price.frac < crate::amount::FRAC_LIMIT && self.quantity.frac
            < crate::amount::FRAC_LIMIT && self.remaining_quantity.frac < crate::amount::FRAC_LIMIT;
        let priced = match self.order_type {
            OrderType::Limit => !self.price.is_zero(),
            OrderType::Market => true,
        };
        let fresh = self.remaining_quantity == self.quantity && self.remaining_scale
            == self.quantity_scale && self.status == OrderStatus::New;
        amounts_wf && !self.quantity.is_zero() && priced && fresh
    }

    /// Executes `qty` of the open part, which is written with `scale`
    /// digits after the point, and sets the status that follows.
    pub fn execute(&mut self, qty: Amount, scale: u32)
        requires
            old(self).wf(),
            qty.wf(),
            qty.units() <= old(self).remaining_quantity.units(),
        ensures
            *final(self) == old(self).executed(qty, scale),
            final(self).wf(),
            final(self).remaining_quantity.units() == old(self).remaining_quantity.units()
                - qty.units(),
    {
        let remaining = self.remaining_quantity.minus(&qty);
        self.remaining_quantity = remaining;
        if scale > self.remaining_scale {
            self.remaining_scale = scale;
        }
        self.status = if remaining.is_zero() {
            OrderStatus::Filled
        } else if remaining == self.quantity {
            OrderStatus::New
        } else {
            OrderStatus::PartiallyFilled
        };
        proof {
            if remaining.units() == self.quantity.units() {
                crate::amount::lemma_units_injective(remaining, self.quantity);
            }
        }
    }
}

} // verus!
