//! The mathematical model of the engine: what the book and the registry
//! hold, and what placing an order does to them.

use crate::amount::{
    amount_limit, lemma_from_units, lemma_units_bounded, lemma_units_injective, Amount, Total,
};
use crate::order::{Order, OrderType, Side};
use vstd::prelude::*;

verus! {

/// One side of the book: for each price with resting orders, the ids of
/// those orders in the order of their arrival.
pub type Levels = Map<Amount, Seq<u64>>;

/// The registry: the one record of each order that was accepted.
pub type Registry = Map<u64, Order>;

/// Whether `p` is the price with priority over every other price in `prices`.
pub open spec fn is_best(prices: Set<Amount>, side: Side, p: Amount) -> bool {
    &&& prices.contains(p)
    &&& forall|q: Amount| #[trigger] prices.contains(q) && q != p ==> side.better(p, q)
}

/// Whether some price in `prices` has priority over all others.
pub open spec fn has_best(prices: Set<Amount>, side: Side) -> bool {
    exists|p: Amount| is_best(prices, side, p)
}

/// The price with priority over all others, where there is one.
pub open spec fn best_price(prices: Set<Amount>, side: Side) -> Amount {
    choose|p: Amount| is_best(prices, side, p)
}

/// Whether `listed` holds the first `depth` prices of `prices` in order of
/// priority, or all of them where there are fewer.
pub open spec fn is_best_first(listed: Seq<Amount>, prices: Set<Amount>, side: Side, depth: int) -> bool {
    &&& listed.len() == (if depth <= prices.len() {
        depth
    } else {
        prices.len() as int
    })
    &&& forall|i: int| 0 <= i < listed.len() ==> prices.contains(#[trigger] listed[i])
    &&& forall|i: int, j: int|
        0 <= i < j < listed.len() ==> side.better(#[trigger] listed[i], #[trigger] listed[j])
    &&& forall|p: Amount, i: int|
        #[trigger] prices.contains(p) && !listed.contains(p) && 0 <= i < listed.len()
            ==> side.better(#[trigger] listed[i], p)
}

/// Whether `rows` is the snapshot of one side to the given depth: its
/// first `depth` levels, best first, each as its price and the total open
/// quantity of its orders.
pub open spec fn is_snapshot(
    rows: Seq<(Amount, Total)>,
    levels: Levels,
    orders: Registry,
    side: Side,
    depth: int,
) -> bool {
    &&& is_best_first(Seq::new(rows.len(), |i: int| rows[i].0), levels.dom(), side, depth)
    &&& forall|i: int|
        0 <= i < rows.len() ==> (#[trigger] rows[i]).1.wf() && rows[i].1.units() == sum_remaining(
            levels[rows[i].0],
            orders,
        )
}

/// The total open quantity of the orders in `queue`, in units.
pub open spec fn sum_remaining(queue: Seq<u64>, orders: Registry) -> nat
    decreases queue.len(),
{
    if queue.len() == 0 {
        0
    } else {
        orders[queue[0]].remaining_quantity.units() + sum_remaining(queue.drop_first(), orders)
    }
}

/// The greatest number of digits after the point that the open part of a
/// member of `queue` is written with; the sum of the open parts is written
/// with as many.
pub open spec fn max_scale(queue: Seq<u64>, orders: Registry) -> u32
    decreases queue.len(),
{
    if queue.len() == 0 {
        0
    } else {
        let before = max_scale(queue.drop_last(), orders);
        let own = orders[queue.last()].remaining_scale;
        if own > before {
            own
        } else {
            before
        }
    }
}

/// Order `id` rests properly at `price` on `side`: the registry holds it as
/// a live limit order of that side and price with an open part.
pub open spec fn resting_ok(orders: Registry, side: Side, price: Amount, id: u64) -> bool {
    &&& orders.contains_key(id)
    &&& orders[id].id == id
    &&& orders[id].side == side
    &&& orders[id].order_type == OrderType::Limit
    &&& orders[id].price == price
    &&& orders[id].wf()
    &&& orders[id].remaining_quantity.units() > 0
}

/// A level is a non-empty queue of distinct orders that rest properly.
pub open spec fn level_ok(orders: Registry, side: Side, price: Amount, queue: Seq<u64>) -> bool {
    &&& price.wf()
    &&& queue.len() > 0
    &&& queue.no_duplicates()
    &&& forall|i: int| 0 <= i < queue.len() ==> resting_ok(orders, side, price, #[trigger] queue[i])
}

/// A side has finitely many levels, each of them in order.
pub open spec fn side_ok(orders: Registry, side: Side, levels: Levels) -> bool {
    &&& levels.dom().finite()
    &&& forall|p: Amount| #[trigger] levels.contains_key(p) ==> level_ok(orders, side, p, levels[p])
}

/// Whether `order` rests in `levels`: the level at its price holds its id.
pub open spec fn rests(levels: Levels, order: Order) -> bool {
    levels.contains_key(order.price) && levels[order.price].contains(order.id)
}

/// Every limit order of `side` that the registry holds with an open part
/// rests in `levels`.
pub open spec fn side_complete(orders: Registry, side: Side, levels: Levels) -> bool {
    forall|id: u64| #[trigger]
        orders.contains_key(id) && orders[id].side == side && orders[id].order_type
            == OrderType::Limit && orders[id].remaining_quantity.units() > 0 ==> rests(
            levels,
            orders[id],
        )
}

/// Every record is a live order filed under its own id.
pub open spec fn registry_ok(orders: Registry) -> bool {
    forall|id: u64| #[trigger] orders.contains_key(id) ==> orders[id].wf() && orders[id].id == id
}

/// Within every level, an order that arrived earlier carries no later timestamp.
pub open spec fn time_ordered(orders: Registry, levels: Levels) -> bool {
    forall|p: Amount, i: int, j: int|
        levels.contains_key(p) && 0 <= i < j < levels[p].len() ==> (#[trigger] orders[levels[p][i]]).timestamp.at_or_before(
            (#[trigger] orders[levels[p][j]]).timestamp,
        )
}

/// Whether `later` is what is left of the queue `earlier` after some of its
/// front orders have left.
pub open spec fn is_suffix(later: Seq<u64>, earlier: Seq<u64>) -> bool {
    &&& later.len() <= earlier.len()
    &&& forall|i: int|
        0 <= i < later.len() ==> #[trigger] later[i] == earlier[earlier.len() - later.len() + i]
}

/// Whether `later` is the order `earlier` after zero or more executions:
/// the same terms, written the same way, and an open part that has not
/// grown.
pub open spec fn advanced(earlier: Order, later: Order) -> bool {
    &&& later.id == earlier.id
    &&& later.side == earlier.side
    &&& later.order_type == earlier.order_type
    &&& later.price == earlier.price
    &&& later.quantity == earlier.quantity
    &&& later.timestamp == earlier.timestamp
    &&& later.price_scale == earlier.price_scale
    &&& later.quantity_scale == earlier.quantity_scale
    &&& later.remaining_scale >= earlier.remaining_scale
    &&& later.remaining_quantity.units() <= earlier.remaining_quantity.units()
}

/// Whether an incoming order may trade at `level_price`: a market order
/// always, a limit bid at or above the price, a limit ask at or below it.
pub open spec fn crosses(incoming: Order, level_price: Amount) -> bool {
    match incoming.order_type {
        OrderType::Market => true,
        OrderType::Limit => match incoming.side {
            Side::Bid => incoming.price.units() >= level_price.units(),
            Side::Ask => incoming.price.units() <= level_price.units(),
        },
    }
}

/// One trade: the resting order that took part, the price at which it
/// rested, which is the price of the trade, and the quantity.
pub struct Trade {
    pub resting_id: u64,
    pub price: Amount,
    pub quantity: Amount,
}

/// The total quantity of `trades`, in units.
pub open spec fn traded_total(trades: Seq<Trade>) -> nat
    decreases trades.len(),
{
    if trades.len() == 0 {
        0
    } else {
        trades[0].quantity.units() + traded_total(trades.drop_first())
    }
}

/// The total quantity of those of `trades` that order `id` took part in
/// as the resting order, in units.
pub open spec fn traded_with(trades: Seq<Trade>, id: u64) -> nat
    decreases trades.len(),
{
    if trades.len() == 0 {
        0
    } else {
        (if trades[0].resting_id == id {
            trades[0].quantity.units()
        } else {
            0
        }) + traded_with(trades.drop_first(), id)
    }
}

/// A matching pass in progress: the side that the incoming order trades
/// against, the registry, and the incoming order itself.
pub struct Sweep {
    pub levels: Levels,
    pub orders: Registry,
    pub incoming: Order,
}

impl Sweep {
    /// The side of the resting orders.
    pub open spec fn side(self) -> Side {
        self.incoming.side.opposite()
    }

    /// The best price on the resting side.
    pub open spec fn price(self) -> Amount {
        best_price(self.levels.dom(), self.side())
    }

    /// The id of the order that trades next: the earliest at the best price.
    pub open spec fn resting_id(self) -> u64 {
        self.levels[self.price()][0]
    }

    /// The order that trades next.
    pub open spec fn resting(self) -> Order {
        self.orders[self.resting_id()]
    }

    /// The pass is in order: the resting side and the registry are, and the
    /// incoming order is a live order that the registry does not hold yet.
    pub open spec fn wf(self) -> bool {
        &&& side_ok(self.orders, self.side(), self.levels)
        &&& registry_ok(self.orders)
        &&& self.incoming.wf()
        &&& !self.orders.contains_key(self.incoming.id)
    }

    /// Whether another trade takes place: the incoming order has an open
    /// part, the resting side has a best price, and the two cross.
    pub open spec fn can_trade(self) -> bool {
        &&& self.incoming.remaining_quantity.units() > 0
        &&& has_best(self.levels.dom(), self.side())
        &&& crosses(self.incoming, self.price())
    }

    /// The quantity of the next trade: the smaller of the two open parts.
    pub open spec fn trade_quantity(self) -> Amount {
        if self.incoming.remaining_quantity.units() <= self.resting().remaining_quantity.units() {
            self.incoming.remaining_quantity
        } else {
            self.resting().remaining_quantity
        }
    }

    /// The number of digits after the point that the quantity of the next
    /// trade is written with: that of the open part that it is.
    pub open spec fn trade_scale(self) -> u32 {
        if self.incoming.remaining_quantity.units() <= self.resting().remaining_quantity.units() {
            self.incoming.remaining_scale
        } else {
            self.resting().remaining_scale
        }
    }

    /// The pass after the next trade.  Both orders give up the traded
    /// quantity; a resting order that is filled leaves its level, and a
    /// level that is left empty leaves the book.
    pub open spec fn trade(self) -> Sweep {
        let p = self.price();
        let queue = self.levels[p];
        let qty = self.trade_quantity();
        let resting = self.resting().executed(qty, self.trade_scale());
        let levels = if resting.remaining_quantity.units() > 0 {
            self.levels
        } else if queue.len() <= 1 {
            self.levels.remove(p)
        } else {
            self.levels.insert(p, queue.drop_first())
        };
        Sweep {
            levels,
            orders: self.orders.insert(self.resting_id(), resting),
            incoming: self.incoming.executed(qty, self.trade_scale()),
        }
    }

    /// The pass when no further trade takes place.
    pub open spec fn run(self) -> Sweep
        decreases self.levels.dom().len(), self.levels[self.price()].len(),
        when self.wf()
        via Self::run_decreases
    {
        if self.can_trade() {
            let next = self.trade();
            if next.incoming.remaining_quantity.units() > 0 {
                next.run()
            } else {
                next
            }
        } else {
            self
        }
    }

    /// The next trade.
    pub open spec fn next_trade(self) -> Trade {
        Trade {
            resting_id: self.resting_id(),
            price: self.resting().price,
            quantity: self.trade_quantity(),
        }
    }

    /// The trades of the pass, in the order in which they take place.
    pub open spec fn trades(self) -> Seq<Trade>
        decreases self.levels.dom().len(), self.levels[self.price()].len(),
        when self.wf()
        via Self::trades_decreases
    {
        if self.can_trade() {
            let next = self.trade();
            if next.incoming.remaining_quantity.units() > 0 {
                seq![self.next_trade()] + next.trades()
            } else {
                seq![self.next_trade()]
            }
        } else {
            Seq::empty()
        }
    }

    #[via_fn]
    proof fn trades_decreases(self) {
        if self.can_trade() {
            let next = self.trade();
            if next.incoming.remaining_quantity.units() > 0 {
                self.lemma_trade();
            }
        }
    }

    #[via_fn]
    proof fn run_decreases(self) {
        if self.can_trade() {
            let next = self.trade();
            if next.incoming.remaining_quantity.units() > 0 {
                self.lemma_trade();
            }
        }
    }

    /// What one trade does: the pass stays in order; both orders lose the
    /// same positive quantity; only the record of the resting order changes;
    /// and unless the incoming order is exhausted, the resting order is
    /// filled and has left the book.
    pub proof fn lemma_trade(self)
        requires
            self.wf(),
            self.can_trade(),
        ensures
            self.trade().wf(),
            is_best(self.levels.dom(), self.side(), self.price()),
            resting_ok(self.orders, self.side(), self.price(), self.resting_id()),
            self.trade_quantity().units() > 0,
            self.trade().incoming.remaining_quantity.units()
                == self.incoming.remaining_quantity.units() - self.trade_quantity().units(),
            self.trade().orders[self.resting_id()].remaining_quantity.units()
                == self.resting().remaining_quantity.units() - self.trade_quantity().units(),
            self.trade().orders.dom() == self.orders.dom(),
            forall|id: u64| id != self.resting_id() ==> self.trade().orders[id] == self.orders[id],
            self.trade().levels.dom().subset_of(self.levels.dom()),
            forall|p: Amount| #[trigger]
                self.trade().levels.contains_key(p) ==> is_suffix(
                    self.trade().levels[p],
                    self.levels[p],
                ),
            forall|p: Amount| #[trigger]
                self.levels.contains_key(p) && p != self.price() ==> self.trade().levels.contains_key(
                    p,
                ) && self.trade().levels[p] == self.levels[p],
            advanced(self.resting(), self.trade().orders[self.resting_id()]),
            advanced(self.incoming, self.trade().incoming),
            self.trade().incoming.remaining_quantity.units() > 0 ==> {
                ||| (self.trade().levels.dom().len() < self.levels.dom().len())
                ||| (self.trade().levels.dom().len() == self.levels.dom().len()
                    && self.trade().price() == self.price()
                    && self.trade().levels[self.price()].len() < self.levels[self.price()].len())
            },
    {
        let side = self.side();
        let p = self.price();
        let queue = self.levels[p];
        let rid = self.resting_id();
        let old_resting = self.resting();
        let qty = self.trade_quantity();
        let next = self.trade();
        assert(is_best(self.levels.dom(), side, p));
        assert(self.levels.contains_key(p));
        assert(level_ok(self.orders, side, p, queue));
        assert(resting_ok(self.orders, side, p, queue[0]));
        lemma_units_bounded(self.incoming.remaining_quantity);
        lemma_units_bounded(old_resting.remaining_quantity);
        lemma_from_units((old_resting.remaining_quantity.units() - qty.units()) as nat);
        lemma_from_units((self.incoming.remaining_quantity.units() - qty.units()) as nat);
        let resting = old_resting.executed(qty, self.trade_scale());
        assert(resting.wf());
        assert(next.incoming.wf());
        // the registry
        assert(registry_ok(next.orders));
        assert(next.orders.dom() =~= self.orders.dom());
        // the levels
        assert forall|q: Amount| #[trigger] next.levels.contains_key(q) implies level_ok(
            next.orders,
            side,
            q,
            next.levels[q],
        ) by {
            assert(self.levels.contains_key(q));
            assert(level_ok(self.orders, side, q, self.levels[q]));
            let nq = next.levels[q];
            if q == p {
                if resting.remaining_quantity.units() > 0 {
                    assert(nq == queue);
                    assert forall|i: int| 0 <= i < nq.len() implies resting_ok(
                        next.orders,
                        side,
                        q,
                        #[trigger] nq[i],
                    ) by {
                        assert(resting_ok(self.orders, side, q, queue[i]));
                    }
                } else {
                    assert(nq == queue.drop_first());
                    assert forall|i: int| 0 <= i < nq.len() implies resting_ok(
                        next.orders,
                        side,
                        q,
                        #[trigger] nq[i],
                    ) by {
                        assert(nq[i] == queue[i + 1]);
                        assert(resting_ok(self.orders, side, q, queue[i + 1]));
                        assert(queue[i + 1] != queue[0]);
                    }
                    assert(nq.no_duplicates()) by {
                        assert forall|i: int, j: int|
                            0 <= i < nq.len() && 0 <= j < nq.len() && i != j implies nq[i]
                            != nq[j] by {
                            assert(nq[i] == queue[i + 1]);
                            assert(nq[j] == queue[j + 1]);
                        }
                    }
                }
            } else {
                assert(nq == self.levels[q]);
                assert forall|i: int| 0 <= i < nq.len() implies resting_ok(
                    next.orders,
                    side,
                    q,
                    #[trigger] nq[i],
                ) by {
                    assert(resting_ok(self.orders, side, q, nq[i]));
                    assert(self.orders[nq[i]].price == q);
                    assert(nq[i] != rid);
                }
            }
        }
        assert(side_ok(next.orders, side, next.levels));
        assert forall|q: Amount| #[trigger] next.levels.contains_key(q) implies is_suffix(
            next.levels[q],
            self.levels[q],
        ) by {
            if q == p && resting.remaining_quantity.units() == 0 {
                assert(next.levels[q] == queue.drop_first());
            }
        }
        if next.incoming.remaining_quantity.units() > 0 {
            assert(qty == old_resting.remaining_quantity);
            assert(resting.remaining_quantity.units() == 0);
            if queue.len() <= 1 {
                assert(next.levels == self.levels.remove(p));
                assert(next.levels.dom() =~= self.levels.dom().remove(p));
            } else {
                assert(next.levels == self.levels.insert(p, queue.drop_first()));
                assert(next.levels.dom() =~= self.levels.dom());
                assert(next.side() == side);
            }
        }
    }
}

/// The total of a queue depends only on the records of its members.
pub proof fn lemma_sum_frame(queue: Seq<u64>, orders: Registry, later: Registry)
    requires
        forall|i: int|
            0 <= i < queue.len() ==> later[#[trigger] queue[i]].remaining_quantity
                == orders[queue[i]].remaining_quantity,
    ensures
        sum_remaining(queue, later) == sum_remaining(queue, orders),
    decreases queue.len(),
{
    if queue.len() > 0 {
        let tail = queue.drop_first();
        assert forall|i: int| 0 <= i < tail.len() implies later[#[trigger] tail[i]].remaining_quantity
            == orders[tail[i]].remaining_quantity by {
            assert(tail[i] == queue[i + 1]);
        }
        lemma_sum_frame(tail, orders, later);
        assert(queue[0] == queue[0]);
    }
}

/// An order that joins the rear of a queue adds its open quantity to the total.
pub proof fn lemma_sum_push(queue: Seq<u64>, id: u64, orders: Registry)
    ensures
        sum_remaining(queue.push(id), orders) == sum_remaining(queue, orders)
            + orders[id].remaining_quantity.units(),
    decreases queue.len(),
{
    let longer = queue.push(id);
    if queue.len() == 0 {
        assert(longer.drop_first() =~= Seq::<u64>::empty());
        assert(sum_remaining(longer.drop_first(), orders) == 0);
    } else {
        assert(longer.drop_first() =~= queue.drop_first().push(id));
        lemma_sum_push(queue.drop_first(), id, orders);
    }
}

/// The total of a queue of well-formed open quantities is no more than
/// what as many amounts can come to.
pub proof fn lemma_sum_bound(queue: Seq<u64>, orders: Registry)
    requires
        forall|i: int| 0 <= i < queue.len() ==> orders[#[trigger] queue[i]].remaining_quantity.wf(),
    ensures
        sum_remaining(queue, orders) <= queue.len() * amount_limit(),
    decreases queue.len(),
{
    if queue.len() > 0 {
        let tail = queue.drop_first();
        assert forall|i: int| 0 <= i < tail.len() implies orders[#[trigger] tail[i]].remaining_quantity.wf() by {
            assert(tail[i] == queue[i + 1]);
        }
        lemma_sum_bound(tail, orders);
        assert(queue[0] == queue[0]);
        lemma_units_bounded(orders[queue[0]].remaining_quantity);
        assert(sum_remaining(queue, orders) <= queue.len() * amount_limit()) by (nonlinear_arith)
            requires
                sum_remaining(queue, orders) == orders[queue[0]].remaining_quantity.units()
                    + sum_remaining(tail, orders),
                orders[queue[0]].remaining_quantity.units() < amount_limit(),
                sum_remaining(tail, orders) <= tail.len() * amount_limit(),
                tail.len() == queue.len() - 1,
        ;
    }
}

/// A finite, non-empty set of well-formed prices has a best price.
pub proof fn lemma_has_best(prices: Set<Amount>, side: Side)
    requires
        prices.finite(),
        !prices.is_empty(),
        forall|p: Amount| prices.contains(p) ==> p.wf(),
    ensures
        has_best(prices, side),
        is_best(prices, side, best_price(prices, side)),
    decreases prices.len(),
{
    let x = prices.choose();
    let rest = prices.remove(x);
    if rest.is_empty() {
        assert forall|q: Amount| #[trigger] prices.contains(q) && q != x implies side.better(
            x,
            q,
        ) by {
            assert(rest.contains(q));
        }
        assert(is_best(prices, side, x));
    } else {
        lemma_has_best(rest, side);
        let y = best_price(rest, side);
        assert(rest.contains(y));
        if x.units() != y.units() && side.better(x, y) {
            assert forall|q: Amount| #[trigger] prices.contains(q) && q != x implies side.better(
                x,
                q,
            ) by {
                assert(rest.contains(q));
            }
            assert(is_best(prices, side, x));
        } else {
            assert(x != y);
            if x.units() == y.units() {
                lemma_units_injective(x, y);
            }
            assert forall|q: Amount| #[trigger] prices.contains(q) && q != y implies side.better(
                y,
                q,
            ) by {
                if q != x {
                    assert(rest.contains(q));
                }
            }
            assert(is_best(prices, side, y));
        }
    }
}

/// A set of well-formed prices has at most one best price.
pub proof fn lemma_best_unique(prices: Set<Amount>, side: Side, p: Amount)
    requires
        is_best(prices, side, p),
    ensures
        has_best(prices, side),
        best_price(prices, side) == p,
{
    let b = best_price(prices, side);
    assert(is_best(prices, side, b));
    if b != p {
        assert(side.better(p, b));
        assert(side.better(b, p));
    }
}

/// A side stays in order when the records of its own orders stay as they are.
pub proof fn lemma_side_frame(orders: Registry, later: Registry, side: Side, levels: Levels)
    requires
        side_ok(orders, side, levels),
        forall|id: u64| #[trigger]
            orders.contains_key(id) && orders[id].side == side ==> later.contains_key(id)
                && later[id] == orders[id],
    ensures
        side_ok(later, side, levels),
{
    assert forall|p: Amount| #[trigger] levels.contains_key(p) implies level_ok(
        later,
        side,
        p,
        levels[p],
    ) by {
        assert(level_ok(orders, side, p, levels[p]));
        assert forall|i: int| 0 <= i < levels[p].len() implies resting_ok(
            later,
            side,
            p,
            #[trigger] levels[p][i],
        ) by {
            assert(resting_ok(orders, side, p, levels[p][i]));
        }
    }
}

impl Sweep {
    /// What a whole pass does.  It ends in order, with the incoming order
    /// exhausted or unable to trade.  The registry holds the same ids; a
    /// record changes only by executions, and only on the resting side.
    /// No level appears, and each level that is left is the rear of what
    /// it was.
    pub proof fn lemma_run(self)
        requires
            self.wf(),
        ensures
            self.run().wf(),
            self.run().incoming.remaining_quantity.units() == 0 || !self.run().can_trade(),
            advanced(self.incoming, self.run().incoming),
            self.run().orders.dom() == self.orders.dom(),
            forall|id: u64| #[trigger]
                self.orders.contains_key(id) ==> advanced(self.orders[id], self.run().orders[id]),
            forall|id: u64| #[trigger]
                self.orders.contains_key(id) && self.orders[id].side != self.side()
                    ==> self.run().orders[id] == self.orders[id],
            self.run().levels.dom().subset_of(self.levels.dom()),
            forall|p: Amount| #[trigger]
                self.run().levels.contains_key(p) ==> is_suffix(
                    self.run().levels[p],
                    self.levels[p],
                ),
        decreases self.levels.dom().len(), self.levels[self.price()].len(),
    {
        if self.can_trade() {
            let next = self.trade();
            self.lemma_trade();
            assert forall|id: u64| #[trigger] self.orders.contains_key(id) implies advanced(
                self.orders[id],
                next.orders[id],
            ) by {}
            if next.incoming.remaining_quantity.units() > 0 {
                next.lemma_run();
                let last = next.run();
                assert(self.run() == last);
                assert forall|id: u64| #[trigger] self.orders.contains_key(id) implies advanced(
                    self.orders[id],
                    last.orders[id],
                ) by {
                    assert(next.orders.contains_key(id));
                    assert(advanced(next.orders[id], last.orders[id]));
                }
                assert forall|id: u64| #[trigger]
                    self.orders.contains_key(id) && self.orders[id].side
                        != self.side() implies last.orders[id] == self.orders[id] by {
                    assert(next.orders.contains_key(id));
                    assert(next.orders[id].side != next.side());
                }
                assert forall|p: Amount| #[trigger] last.levels.contains_key(p) implies is_suffix(
                    last.levels[p],
                    self.levels[p],
                ) by {
                    assert(next.levels.contains_key(p));
                    assert(is_suffix(last.levels[p], next.levels[p]));
                    assert(is_suffix(next.levels[p], self.levels[p]));
                }
            } else {
                assert(self.run() == next);
            }
        } else {
            assert(self.run() == self);
        }
    }
}

/// The levels of a side after `order` has come to rest on it: at the rear of
/// the level at its price, which is opened if it is not there.
pub open spec fn rest(levels: Levels, order: Order) -> Levels {
    if levels.contains_key(order.price) {
        levels.insert(order.price, levels[order.price].push(order.id))
    } else {
        levels.insert(order.price, seq![order.id])
    }
}

/// The state of the engine: the two sides of the book and the registry.
pub struct BookModel {
    pub bids: Levels,
    pub asks: Levels,
    pub orders: Registry,
}

impl BookModel {
    /// The engine before any order.
    pub open spec fn empty() -> BookModel {
        BookModel { bids: Map::empty(), asks: Map::empty(), orders: Map::empty() }
    }

    /// The levels of one side.
    pub open spec fn levels(self, side: Side) -> Levels {
        match side {
            Side::Bid => self.bids,
            Side::Ask => self.asks,
        }
    }

    /// Every bid price is below every ask price.
    pub open spec fn no_cross(self) -> bool {
        forall|b: Amount, a: Amount| #[trigger]
            self.bids.contains_key(b) && #[trigger] self.asks.contains_key(a) ==> b.units()
                < a.units()
    }

    /// The state is in order: both sides and the registry are, and the
    /// book is not crossed.
    pub open spec fn wf(self) -> bool {
        &&& side_ok(self.orders, Side::Bid, self.bids)
        &&& side_ok(self.orders, Side::Ask, self.asks)
        &&& registry_ok(self.orders)
        &&& self.no_cross()
    }

    /// The book misses no order: every limit order that the registry holds
    /// with an open part rests on its side.
    pub open spec fn complete(self) -> bool {
        &&& side_complete(self.orders, Side::Bid, self.bids)
        &&& side_complete(self.orders, Side::Ask, self.asks)
    }

    /// Whether the engine takes `order`: it is fresh, its terms are
    /// acceptable, and its id is not in use.
    pub open spec fn accepts(self, order: Order) -> bool {
        &&& order.acceptable_terms()
        &&& order.is_fresh()
        &&& !self.orders.contains_key(order.id)
    }

    /// The matching pass that `order` starts.
    pub open spec fn sweep(self, order: Order) -> Sweep {
        Sweep { levels: self.levels(order.side.opposite()), orders: self.orders, incoming: order }
    }

    /// The state after `order` has been placed, and the order as it is then.
    ///
    /// An order that the engine does not take comes back rejected and
    /// leaves the state as it was.  Any other order trades as far as it
    /// can; what is left of a limit order comes to rest, what is left of a
    /// market order is dropped; and the order is recorded.
    pub open spec fn place(self, order: Order) -> (BookModel, Order) {
        if !self.accepts(order) {
            (self, order.rejected())
        } else {
            let pass = self.sweep(order).run();
            let done = pass.incoming;
            let own = if done.order_type == OrderType::Limit && done.remaining_quantity.units()
                > 0 {
                rest(self.levels(order.side), done)
            } else {
                self.levels(order.side)
            };
            let orders = pass.orders.insert(done.id, done);
            let state = match order.side {
                Side::Bid => BookModel { bids: own, asks: pass.levels, orders },
                Side::Ask => BookModel { bids: pass.levels, asks: own, orders },
            };
            (state, done)
        }
    }

    /// Placing an order keeps the state in order; in particular the book is
    /// never left crossed.
    pub proof fn lemma_place_wf(self, order: Order)
        requires
            self.wf(),
        ensures
            self.place(order).0.wf(),
    {
        if self.accepts(order) {
            let side = order.side;
            let opp = side.opposite();
            let start = self.sweep(order);
            assert(start.wf());
            start.lemma_run();
            let pass = start.run();
            let done = pass.incoming;
            let state = self.place(order).0;
            let orders = state.orders;
            let own_before = self.levels(side);
            let own = state.levels(side);
            assert(state.levels(opp) == pass.levels);
            assert(orders == pass.orders.insert(done.id, done));
            assert(pass.side() == opp);
            assert(registry_ok(orders));
            // the side that the order traded against
            lemma_side_frame(pass.orders, orders, opp, pass.levels);
            // the side of the order itself
            lemma_side_frame(self.orders, orders, side, own_before);
            if done.order_type == OrderType::Limit && done.remaining_quantity.units() > 0 {
                let p = done.price;
                assert(own == rest(own_before, done));
                assert(own.dom() =~= own_before.dom().insert(p));
                assert forall|q: Amount| #[trigger] own.contains_key(q) implies level_ok(
                    orders,
                    side,
                    q,
                    own[q],
                ) by {
                    if q == p {
                        if own_before.contains_key(p) {
                            let before = own_before[p];
                            assert(level_ok(orders, side, p, before));
                            assert(own[p] == before.push(done.id));
                            assert forall|i: int| 0 <= i < own[p].len() implies resting_ok(
                                orders,
                                side,
                                p,
                                #[trigger] own[p][i],
                            ) by {
                                if i < before.len() {
                                    assert(resting_ok(orders, side, p, before[i]));
                                }
                            }
                            assert forall|i: int, j: int|
                                0 <= i < own[p].len() && 0 <= j < own[p].len() && i
                                    != j implies own[p][i] != own[p][j] by {
                                if i < before.len() {
                                    assert(resting_ok(self.orders, side, p, before[i]));
                                }
                                if j < before.len() {
                                    assert(resting_ok(self.orders, side, p, before[j]));
                                }
                            }
                        } else {
                            assert(own[p] == seq![done.id]);
                        }
                    } else {
                        assert(own_before.contains_key(q));
                        assert(own[q] == own_before[q]);
                    }
                }
                assert(side_ok(orders, side, own));
                // the order could trade no further, so it crosses no level
                assert(!pass.can_trade());
                if !pass.levels.dom().is_empty() {
                    assert forall|q: Amount| pass.levels.dom().contains(q) implies q.wf() by {
                        assert(pass.levels.contains_key(q));
                    }
                    lemma_has_best(pass.levels.dom(), opp);
                    let b = pass.price();
                    assert(!crosses(done, b));
                    assert forall|q: Amount| #[trigger] pass.levels.contains_key(q) implies !crosses(
                        done,
                        q,
                    ) by {
                        if q != b {
                            assert(opp.better(b, q));
                        }
                    }
                }
                assert(state.no_cross()) by {
                    assert forall|b: Amount, a: Amount| #[trigger]
                        state.bids.contains_key(b) && #[trigger] state.asks.contains_key(
                            a,
                        ) implies b.units() < a.units() by {
                        match side {
                            Side::Bid => {
                                assert(pass.levels.contains_key(a));
                                assert(self.asks.contains_key(a));
                                if b != p {
                                    assert(self.bids.contains_key(b));
                                }
                            },
                            Side::Ask => {
                                assert(pass.levels.contains_key(b));
                                assert(self.bids.contains_key(b));
                                if a != p {
                                    assert(self.asks.contains_key(a));
                                }
                            },
                        }
                    }
                }
            } else {
                assert(own == own_before);
                assert(state.no_cross()) by {
                    assert forall|b: Amount, a: Amount| #[trigger]
                        state.bids.contains_key(b) && #[trigger] state.asks.contains_key(
                            a,
                        ) implies b.units() < a.units() by {
                        match side {
                            Side::Bid => {
                                assert(pass.levels.contains_key(a));
                                assert(self.asks.contains_key(a));
                            },
                            Side::Ask => {
                                assert(pass.levels.contains_key(b));
                                assert(self.bids.contains_key(b));
                            },
                        }
                    }
                }
            }
        }
    }
}

} // verus!
