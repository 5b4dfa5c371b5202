//! The matching engine: the book, the registry, and the three operations
//! on them.

use crate::amount::{amount_limit, Amount, Total};
use crate::book::{BookSide, OrderBook};
use crate::model::{
    crosses, is_snapshot, lemma_best_unique, lemma_side_frame, lemma_sum_bound,
    lemma_sum_frame, lemma_sum_push, level_ok, max_scale, resting_ok, side_ok, sum_remaining,
    BookModel, Registry, Sweep,
};
use crate::order::{Order, OrderStatus, OrderType, Side};
use std::collections::HashMap;
use vstd::prelude::*;

verus! {

/// Each level of `side` keeps as its total the sum of the open quantities
/// that `orders` records for its members.
pub open spec fn totals_ok(side: BookSide, orders: Registry) -> bool {
    forall|p: Amount| #[trigger]
        side.queues().contains_key(p) ==> side.total_at(p).units() == sum_remaining(
            side.queues()[p],
            orders,
        )
}

/// Whether `incoming` may trade at `price`.
fn crosses_at(incoming: &Order, price: &Amount) -> (r: bool)
    requires
        incoming.price.wf(),
        price.wf(),
    ensures
        r == crosses(*incoming, *price),
{
    match incoming.order_type {
        OrderType::Market => true,
        OrderType::Limit => match incoming.side {
            Side::Bid => price.le(&incoming.price),
            Side::Ask => incoming.price.le(price),
        },
    }
}

/// Totals stay right for a side whose members' records stay as they are.
proof fn lemma_totals_frame(side: BookSide, orders: Registry, later: Registry)
    requires
        totals_ok(side, orders),
        side_ok(orders, side.side(), side.queues()),
        forall|id: u64| #[trigger]
            orders.contains_key(id) && orders[id].side == side.side() ==> later[id] == orders[id],
    ensures
        totals_ok(side, later),
{
    assert forall|p: Amount| #[trigger] side.queues().contains_key(p) implies side.total_at(
        p,
    ).units() == sum_remaining(side.queues()[p], later) by {
        let queue = side.queues()[p];
        assert(level_ok(orders, side.side(), p, queue));
        assert forall|i: int| 0 <= i < queue.len() implies later[#[trigger] queue[i]].remaining_quantity
            == orders[queue[i]].remaining_quantity by {
            assert(resting_ok(orders, side.side(), p, queue[i]));
        }
        lemma_sum_frame(queue, orders, later);
    }
}

/// The total of the best level covers the open part of its earliest order,
/// and what is left without it has room for the other members.
proof fn lemma_front_total(side: BookSide, cur: Sweep)
    requires
        totals_ok(side, cur.orders),
        cur.levels == side.queues(),
        cur.side() == side.side(),
        cur.wf(),
        cur.can_trade(),
    ensures
        cur.resting().remaining_quantity.units() <= side.total_at(cur.price()).units(),
        side.total_at(cur.price()).units() - cur.resting().remaining_quantity.units() <= (
        cur.levels[cur.price()].len() - 1) * amount_limit(),
{
    cur.lemma_trade();
    let price = cur.price();
    let queue = cur.levels[price];
    let tail = queue.drop_first();
    assert(cur.levels.contains_key(price));
    assert(level_ok(cur.orders, cur.side(), price, queue));
    assert forall|i: int| 0 <= i < tail.len() implies cur.orders[#[trigger] tail[i]].remaining_quantity.wf() by {
        assert(tail[i] == queue[i + 1]);
        assert(resting_ok(cur.orders, cur.side(), price, queue[i + 1]));
    }
    lemma_sum_bound(tail, cur.orders);
    assert(sum_remaining(queue, cur.orders) == cur.orders[queue[0]].remaining_quantity.units()
        + sum_remaining(tail, cur.orders));
}

/// Totals stay right through a trade, when the best level's total drops by
/// the traded quantity and the other totals stay.
proof fn lemma_totals_after_trade(before: BookSide, after: BookSide, cur: Sweep)
    requires
        totals_ok(before, cur.orders),
        cur.levels == before.queues(),
        cur.side() == before.side(),
        cur.wf(),
        cur.can_trade(),
        after.queues() == cur.trade().levels,
        after.queues().contains_key(cur.price()) ==> after.total_at(cur.price()).units()
            == before.total_at(cur.price()).units() - cur.trade_quantity().units(),
        forall|q: Amount|
            q != cur.price() && #[trigger] after.queues().contains_key(q) ==> after.total_at(q)
                == before.total_at(q),
    ensures
        totals_ok(after, cur.trade().orders),
{
    cur.lemma_trade();
    let price = cur.price();
    let queue = cur.levels[price];
    let tail = queue.drop_first();
    let rid = cur.resting_id();
    let next = cur.trade();
    assert(cur.levels.contains_key(price));
    assert(level_ok(cur.orders, cur.side(), price, queue));
    assert forall|p: Amount| #[trigger] after.queues().contains_key(p) implies after.total_at(
        p,
    ).units() == sum_remaining(after.queues()[p], next.orders) by {
        assert(cur.levels.contains_key(p));
        assert(level_ok(cur.orders, cur.side(), p, cur.levels[p]));
        if p == price {
            assert forall|i: int| 0 <= i < tail.len() implies next.orders[#[trigger] tail[i]].remaining_quantity
                == cur.orders[tail[i]].remaining_quantity by {
                assert(tail[i] == queue[i + 1]);
            }
            lemma_sum_frame(tail, cur.orders, next.orders);
            assert(sum_remaining(queue, cur.orders)
                == cur.orders[queue[0]].remaining_quantity.units() + sum_remaining(
                tail,
                cur.orders,
            ));
            if next.orders[rid].remaining_quantity.units() > 0 {
                assert(after.queues()[p] == queue);
                assert(sum_remaining(queue, next.orders)
                    == next.orders[queue[0]].remaining_quantity.units() + sum_remaining(
                    tail,
                    next.orders,
                ));
            } else {
                assert(after.queues()[p] == tail);
            }
        } else {
            let other = after.queues()[p];
            assert(other == cur.levels[p]);
            assert forall|i: int| 0 <= i < other.len() implies next.orders[#[trigger] other[i]].remaining_quantity
                == cur.orders[other[i]].remaining_quantity by {
                assert(resting_ok(cur.orders, cur.side(), p, other[i]));
            }
            lemma_sum_frame(other, cur.orders, next.orders);
        }
    }
}

/// Executes the next trade of the pass: the incoming order against the
/// earliest order at the best price of `side`.
fn trade_front(side: &mut BookSide, registry: &mut HashMap<u64, Order>, inc: &mut Order, rid: u64)
    requires
        old(side).wf(),
        old(side).side() == old(inc).side.opposite(),
        totals_ok(*old(side), old(registry)@),
        (Sweep { levels: old(side).queues(), orders: old(registry)@, incoming: *old(inc) }).wf(),
        (Sweep {
            levels: old(side).queues(),
            orders: old(registry)@,
            incoming: *old(inc),
        }).can_trade(),
        rid == (Sweep {
            levels: old(side).queues(),
            orders: old(registry)@,
            incoming: *old(inc),
        }).resting_id(),
    ensures
        final(side).wf(),
        final(side).side() == old(side).side(),
        totals_ok(*final(side), final(registry)@),
        (Sweep { levels: final(side).queues(), orders: final(registry)@, incoming: *final(inc) })
            == (Sweep {
            levels: old(side).queues(),
            orders: old(registry)@,
            incoming: *old(inc),
        }).trade(),
{
    let ghost cur = Sweep { levels: side.queues(), orders: registry@, incoming: *inc };
    let ghost before = *side;
    proof {
        cur.lemma_trade();
        lemma_front_total(*side, cur);
    }
    let mut resting = *registry.get(&rid).unwrap();
    let takes_all = inc.remaining_quantity.le(&resting.remaining_quantity);
    let qty = if takes_all {
        inc.remaining_quantity
    } else {
        resting.remaining_quantity
    };
    let scale = if takes_all {
        inc.remaining_scale
    } else {
        resting.remaining_scale
    };
    resting.execute(qty, scale);
    inc.execute(qty, scale);
    registry.insert(rid, resting);
    let filled = resting.remaining_quantity.is_zero();
    side.fill_front(&qty, filled);
    proof {
        assert(side.queues() == cur.trade().levels);
        lemma_totals_after_trade(before, *side, cur);
    }
}

/// Runs the matching pass of `incoming` against `side`, and returns the
/// incoming order as the pass leaves it.
fn run_sweep(side: &mut BookSide, registry: &mut HashMap<u64, Order>, incoming: Order) -> (done:
    Order)
    requires
        old(side).wf(),
        old(side).side() == incoming.side.opposite(),
        totals_ok(*old(side), old(registry)@),
        (Sweep { levels: old(side).queues(), orders: old(registry)@, incoming }).wf(),
        incoming.remaining_quantity.units() > 0,
    ensures
        final(side).wf(),
        final(side).side() == old(side).side(),
        totals_ok(*final(side), final(registry)@),
        (Sweep { levels: final(side).queues(), orders: final(registry)@, incoming: done }) == (Sweep {
            levels: old(side).queues(),
            orders: old(registry)@,
            incoming,
        }).run(),
{
    let ghost start = Sweep { levels: side.queues(), orders: registry@, incoming };
    let mut inc = incoming;
    loop
        invariant_except_break
            inc.remaining_quantity.units() > 0,
        invariant
            side.wf(),
            side.side() == inc.side.opposite(),
            inc.side == incoming.side,
            totals_ok(*side, registry@),
            (Sweep { levels: side.queues(), orders: registry@, incoming: inc }).wf(),
            (Sweep { levels: side.queues(), orders: registry@, incoming: inc }).run()
                == start.run(),
        ensures
            side.wf(),
            side.side() == incoming.side.opposite(),
            totals_ok(*side, registry@),
            (Sweep { levels: side.queues(), orders: registry@, incoming: inc }) == start.run(),
        decreases side.queues().dom().len(), side.queues()[best_price_of(*side)].len(),
    {
        let ghost cur = Sweep { levels: side.queues(), orders: registry@, incoming: inc };
        let front = side.best_front();
        if front.is_none() {
            proof {
                if crate::model::has_best(cur.levels.dom(), cur.side()) {
                    let p = choose|p: Amount| crate::model::is_best(cur.levels.dom(), cur.side(), p);
                    assert(cur.levels.dom().contains(p));
                }
                assert(!cur.can_trade());
            }
            break ;
        }
        let (price, rid) = front.unwrap();
        proof {
            lemma_best_unique(cur.levels.dom(), cur.side(), price);
            side.lemma_wf();
            assert(cur.levels.contains_key(price));
        }
        if !crosses_at(&inc, &price) {
            break ;
        }
        proof {
            cur.lemma_trade();
        }
        trade_front(side, registry, &mut inc, rid);
        if inc.remaining_quantity.is_zero() {
            break ;
        }
    }
    inc
}

/// The best price of a side, for the measure of the matching loop.
spec fn best_price_of(side: BookSide) -> Amount {
    crate::model::best_price(side.queues().dom(), side.side())
}

/// Totals stay right on the side where an order comes to rest, when its
/// level's total grows by the order's open quantity and the others stay.
proof fn lemma_totals_after_rest(
    before: BookSide,
    after: BookSide,
    orders: Registry,
    later: Registry,
    done: Order,
)
    requires
        totals_ok(before, orders),
        side_ok(orders, before.side(), before.queues()),
        !orders.contains_key(done.id),
        forall|id: u64| #[trigger]
            orders.contains_key(id) && orders[id].side == before.side() ==> later[id] == orders[id],
        later[done.id] == done,
        after.queues() == crate::model::rest(before.queues(), done),
        after.total_at(done.price).units() == (if before.queues().contains_key(done.price) {
            before.total_at(done.price).units()
        } else {
            0
        }) + done.remaining_quantity.units(),
        forall|q: Amount|
            q != done.price && #[trigger] before.queues().contains_key(q) ==> after.total_at(q)
                == before.total_at(q),
    ensures
        totals_ok(after, later),
{
    lemma_totals_frame(before, orders, later);
    assert forall|p: Amount| #[trigger] after.queues().contains_key(p) implies after.total_at(
        p,
    ).units() == sum_remaining(after.queues()[p], later) by {
        if p == done.price {
            if before.queues().contains_key(p) {
                lemma_sum_push(before.queues()[p], done.id, later);
            } else {
                assert(seq![done.id] =~= Seq::<u64>::empty().push(done.id));
                lemma_sum_push(Seq::<u64>::empty(), done.id, later);
            }
        } else {
            assert(before.queues().contains_key(p));
        }
    }
}

/// The matching engine.  It owns the book and the registry, and every
/// record of an order is held once, in the registry; the book refers to
/// orders by their ids.
pub struct MatchingEngine {
    book: OrderBook,
    registry: HashMap<u64, Order>,
}

impl View for MatchingEngine {
    type V = BookModel;

    closed spec fn view(&self) -> BookModel {
        BookModel {
            bids: self.book.bids.queues(),
            asks: self.book.asks.queues(),
            orders: self.registry@,
        }
    }
}

impl MatchingEngine {
    /// The engine is in order: its state is, and every level keeps as its
    /// total the sum of the open quantities of its members.
    pub closed spec fn wf(&self) -> bool {
        &&& self.book.wf()
        &&& self@.wf()
        &&& self@.complete()
        &&& totals_ok(self.book.bids, self.registry@)
        &&& totals_ok(self.book.asks, self.registry@)
    }

    /// A well-formed engine is in a well-formed state, whose book misses
    /// no order.
    pub proof fn lemma_wf(&self)
        requires
            self.wf(),
        ensures
            self@.wf(),
            self@.complete(),
    {
    }

    /// An engine with an empty book and an empty registry.
    pub fn new() -> (r: MatchingEngine)
        ensures
            r.wf(),
            r@ == BookModel::empty(),
    {
        let r = MatchingEngine { book: OrderBook::new(), registry: HashMap::new() };
        proof {
            assert(r@.bids.dom() =~= Set::<Amount>::empty());
            assert(r@.asks.dom() =~= Set::<Amount>::empty());
        }
        r
    }

    /// Places `order`: matches it against the book, updates the book and
    /// the registry, and returns the order as it stands afterwards.
    ///
    /// An order that is not fresh, whose terms are not acceptable or whose
    /// id is in use comes back with status `Rejected`, and nothing changes.
    /// The terms are not acceptable where the quantity is not positive and
    /// where a limit order has no positive price.
    pub fn place_order(&mut self, order: Order) -> (result: Order)
        requires
            old(self).wf(),
        ensures
            final(self).wf(),
            final(self)@ == old(self)@.place(order).0,
            result == old(self)@.place(order).1,
            final(self)@.no_cross(),
    {
        let ghost before = self@;
        if !order.is_valid() || self.registry.contains_key(&order.id) {
            let mut rejected = order;
            rejected.status = OrderStatus::Rejected;
            return rejected;
        }
        let ghost start = before.sweep(order);
        let ghost own_before = self.book.side(order.side);
        proof {
            assert(start.wf());
            start.lemma_run();
            before.lemma_place_wf(order);
            crate::laws::law_books_agree(before, order);
        }
        let done = match order.side {
            Side::Bid => run_sweep(&mut self.book.asks, &mut self.registry, order),
            Side::Ask => run_sweep(&mut self.book.bids, &mut self.registry, order),
        };
        let ghost pass = start.run();
        proof {
            assert(self.registry@ == pass.orders);
            assert(self.book.side(order.side) == own_before);
            assert(self.book.side(order.side.opposite()).queues() == pass.levels);
        }
        let rests = match done.order_type {
            OrderType::Limit => !done.remaining_quantity.is_zero(),
            OrderType::Market => false,
        };
        let ghost opp_after = self.book.side(order.side.opposite());
        if rests {
            self.book.insert_resting(&done);
        }
        self.registry.insert(done.id, done);
        proof {
            let later = self.registry@;
            assert(later == pass.orders.insert(done.id, done));
            assert(self@ == before.place(order).0);
            // the side that the order traded against
            lemma_totals_frame(opp_after, pass.orders, later);
            // the side of the order itself
            lemma_totals_frame(own_before, before.orders, pass.orders);
            lemma_side_frame(before.orders, pass.orders, order.side, own_before.queues());
            if rests {
                lemma_totals_after_rest(
                    own_before,
                    self.book.side(order.side),
                    pass.orders,
                    later,
                    done,
                );
            } else {
                lemma_totals_frame(own_before, pass.orders, later);
            }
        }
        done
    }

    /// The first `depth` levels of each side, best first: the bids, then
    /// the asks, each level as its price and the total open quantity of its
    /// orders.
    pub fn get_order_book(&self, depth: usize) -> (r: (Vec<(Amount, Total)>, Vec<(Amount, Total)>))
        requires
            self.wf(),
        ensures
            is_snapshot(r.0@, self@.bids, self@.orders, Side::Bid, depth as int),
            is_snapshot(r.1@, self@.asks, self@.orders, Side::Ask, depth as int),
    {
        let r = self.book.depth_snapshot(depth);
        proof {
            self.book.bids.lemma_wf();
            self.book.asks.lemma_wf();
            assert forall|i: int| 0 <= i < r.0@.len() implies (#[trigger] r.0@[i]).1.wf()
                && r.0@[i].1.units() == sum_remaining(self@.bids[r.0@[i].0], self@.orders) by {
                let listed = Seq::new(r.0@.len(), |i: int| r.0@[i].0);
                assert(self@.bids.dom().contains(listed[i]));
                assert(self.book.bids.queues().contains_key(r.0@[i].0));
            }
            assert forall|i: int| 0 <= i < r.1@.len() implies (#[trigger] r.1@[i]).1.wf()
                && r.1@[i].1.units() == sum_remaining(self@.asks[r.1@[i].0], self@.orders) by {
                let listed = Seq::new(r.1@.len(), |i: int| r.1@[i].0);
                assert(self@.asks.dom().contains(listed[i]));
                assert(self.book.asks.queues().contains_key(r.1@[i].0));
            }
        }
        r
    }

    /// How the level of `side` at `price` is written, or nothing where no
    /// order rests there: the number of digits after the point of its
    /// price, which is that of its earliest order, and of its total, which
    /// is the greatest among the open parts of its orders.
    pub fn level_scales(&self, side: Side, price: &Amount) -> (r: Option<(u32, u32)>)
        requires
            self.wf(),
        ensures
            r == (if self@.levels(side).contains_key(*price) {
                Some(
                    (
                        self@.orders[self@.levels(side)[*price][0]].price_scale,
                        max_scale(self@.levels(side)[*price], self@.orders),
                    ),
                )
            } else {
                None
            }),
    {
        let found = match side {
            Side::Bid => self.book.bids.level_at(price),
            Side::Ask => self.book.asks.level_at(price),
        };
        match found {
            None => None,
            Some(level) => {
                let ghost queue = self@.levels(side)[*price];
                proof {
                    assert(self@.levels(side).contains_key(*price));
                    assert(level_ok(self@.orders, side, *price, queue));
                    assert(resting_ok(self@.orders, side, *price, queue[0]));
                }
                let n = level.len();
                let first = level.id_at(0);
                let price_scale = self.registry.get(&first).unwrap().price_scale;
                let mut quantity_scale: u32 = 0;
                let mut i: usize = 0;
                while i < n
                    invariant
                        i <= n,
                        n == queue.len(),
                        level.queue() == queue,
                        self.registry@ == self@.orders,
                        level_ok(self@.orders, side, *price, queue),
                        quantity_scale == max_scale(queue.take(i as int), self@.orders),
                    decreases n - i,
                {
                    let id = level.id_at(i);
                    proof {
                        assert(resting_ok(self@.orders, side, *price, queue[i as int]));
                        assert(queue.take(i + 1).drop_last() =~= queue.take(i as int));
                        assert(queue.take(i + 1).last() == queue[i as int]);
                    }
                    let scale = self.registry.get(&id).unwrap().remaining_scale;
                    if scale > quantity_scale {
                        quantity_scale = scale;
                    }
                    i = i + 1;
                }
                proof {
                    assert(queue.take(n as int) =~= queue);
                }
                Some((price_scale, quantity_scale))
            },
        }
    }

    /// The record of order `id` as it stands, or nothing where no order of
    /// that id was accepted.
    pub fn get_order_status(&self, id: u64) -> (r: Option<Order>)
        ensures
            r == (if self@.orders.contains_key(id) {
                Some(self@.orders[id])
            } else {
                None
            }),
    {
        match self.registry.get(&id) {
            Some(order) => Some(*order),
            None => None,
        }
    }
}

} // verus!
