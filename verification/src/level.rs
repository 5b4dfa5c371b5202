//! A price level: the queue of the orders that rest at one price.

use crate::amount::{amount_limit, Amount, Total};
use crate::order::Order;
use std::collections::VecDeque;
use vstd::prelude::*;

verus! {

/// The orders resting at one price, first come first, and their total open
/// quantity.
pub struct PriceLevel {
    price: Amount,
    total: Total,
    orders: VecDeque<u64>,
}

impl PriceLevel {
    /// The price of the level.
    pub closed spec fn price(&self) -> Amount {
        self.price
    }

    /// The ids of the resting orders, the earliest first.
    pub closed spec fn queue(&self) -> Seq<u64> {
        self.orders@
    }

    /// The quantity that the level keeps as the total of its orders.
    pub closed spec fn total(&self) -> Total {
        self.total
    }

    /// The price and the total are well-formed, and the total is no more
    /// than what as many amounts as the level has members can come to.
    pub closed spec fn wf(&self) -> bool {
        &&& self.price.wf()
        &&& self.total.wf()
        &&& self.total.units() <= self.orders@.len() * amount_limit()
    }

    /// What well-formedness says of the price and the total.
    pub proof fn lemma_wf(&self)
        requires
            self.wf(),
        ensures
            self.price().wf(),
            self.total().wf(),
            self.total().units() <= self.queue().len() * amount_limit(),
    {
    }

    /// An empty level at `price`.
    pub fn new(price: Amount) -> (r: PriceLevel)
        requires
            price.wf(),
        ensures
            r.wf(),
            r.price() == price,
            r.queue() == Seq::<u64>::empty(),
            r.total().units() == 0,
    {
        PriceLevel { price, total: Total::zero(), orders: VecDeque::new() }
    }

    /// The price of the level.
    pub fn get_price(&self) -> (r: Amount)
        ensures
            r == self.price(),
    {
        self.price
    }

    /// Appends `order` to the rear of the queue and adds its open quantity
    /// to the total.
    pub fn push(&mut self, order: &Order)
        requires
            old(self).wf(),
            order.remaining_quantity.wf(),
        ensures
            final(self).wf(),
            final(self).price() == old(self).price(),
            final(self).queue() == old(self).queue().push(order.id),
            final(self).total().units() == old(self).total().units()
                + order.remaining_quantity.units(),
    {
        self.orders.push_back(order.id);
        let n = self.orders.len();
        proof {
            let b = amount_limit();
            let t = self.total.units();
            let r = order.remaining_quantity.units();
            crate::amount::lemma_units_bounded(order.remaining_quantity);
            assert(t + r <= n * b) by (nonlinear_arith)
                requires
                    t <= (n - 1) * b,
                    r < b,
            ;
            assert(n * b < 0x1_0000_0000_0000_0000 * b) by (nonlinear_arith)
                requires
                    n <= 0xffff_ffff_ffff_ffff,
                    b > 0,
            ;
        }
        self.total = self.total.plus(&order.remaining_quantity);
    }

    /// The id of the earliest order, if there is one.
    pub fn peek_front(&self) -> (r: Option<u64>)
        ensures
            r == (if self.queue().len() > 0 {
                Some(self.queue()[0])
            } else {
                None
            }),
    {
        if self.orders.len() > 0 {
            Some(self.orders[0])
        } else {
            None
        }
    }

    /// Takes `qty` off the total: the earliest order has traded that much.
    pub fn reduce(&mut self, qty: &Amount)
        requires
            old(self).wf(),
            qty.wf(),
            qty.units() <= old(self).total().units(),
        ensures
            final(self).wf(),
            final(self).price() == old(self).price(),
            final(self).queue() == old(self).queue(),
            final(self).total().units() == old(self).total().units() - qty.units(),
    {
        self.total = self.total.minus(qty);
    }

    /// Removes the earliest order, which has been filled, and returns its id.
    pub fn pop_front(&mut self) -> (r: Option<u64>)
        requires
            old(self).wf(),
            old(self).queue().len() > 0 ==> old(self).total().units() <= (old(self).queue().len()
                - 1) * amount_limit(),
        ensures
            final(self).wf(),
            final(self).price() == old(self).price(),
            final(self).total() == old(self).total(),
            r == (if old(self).queue().len() > 0 {
                Some(old(self).queue()[0])
            } else {
                None
            }),
            final(self).queue() == (if old(self).queue().len() > 0 {
                old(self).queue().drop_first()
            } else {
                old(self).queue()
            }),
    {
        self.orders.pop_front()
    }

    /// The number of orders at the level.
    pub fn len(&self) -> (r: usize)
        ensures
            r == self.queue().len(),
    {
        self.orders.len()
    }

    /// The id of the order at place `i` of the queue.
    pub fn id_at(&self, i: usize) -> (r: u64)
        requires
            i < self.queue().len(),
        ensures
            r == self.queue()[i as int],
    {
        self.orders[i]
    }

    /// Whether no order rests at the level.
    pub fn is_empty(&self) -> (r: bool)
        ensures
            r == (self.queue().len() == 0),
    {
        self.orders.len() == 0
    }

    /// The total open quantity of the orders at the level.
    pub fn aggregated_quantity(&self) -> (r: Total)
        ensures
            r == self.total(),
    {
        self.total
    }
}

} // verus!
