//! Properties of matching, proved of the model that the engine's contracts
//! are stated over.

use crate::amount::Amount;
use crate::amount::{lemma_total_injective, lemma_units_injective, Total};
use crate::model::{
    advanced, is_best, is_best_first, is_snapshot, is_suffix, level_ok, resting_ok, rests,
    side_complete, time_ordered, traded_total, traded_with, BookModel, Levels, Registry, Sweep,
};
use crate::order::{Order, OrderStatus, OrderType, Side};
use vstd::prelude::*;

verus! {

/// Conservation.  In every trade the incoming order and the resting order
/// give up the same quantity, which is positive; the two orders are on
/// opposite sides; and no other record changes.
pub proof fn law_conservation(pass: Sweep)
    requires
        pass.wf(),
        pass.can_trade(),
    ensures
        pass.incoming.remaining_quantity.units() - pass.trade().incoming.remaining_quantity.units()
            == pass.resting().remaining_quantity.units()
            - pass.trade().orders[pass.resting_id()].remaining_quantity.units(),
        pass.incoming.remaining_quantity.units()
            > pass.trade().incoming.remaining_quantity.units(),
        pass.resting().side == pass.incoming.side.opposite(),
        forall|id: u64|
            id != pass.resting_id() && #[trigger] pass.orders.contains_key(id)
                ==> pass.trade().orders[id] == pass.orders[id],
{
    pass.lemma_trade();
}

/// Conservation over a whole pass.  What the incoming order gives up is the
/// total of the trades of the pass; what a recorded order gives up is the
/// total of the trades that it took part in; and every trade takes place
/// at the price of a level that was in the book.
pub proof fn law_fills_add_up(pass: Sweep)
    requires
        pass.wf(),
    ensures
        pass.incoming.remaining_quantity.units() - pass.run().incoming.remaining_quantity.units()
            == traded_total(pass.trades()),
        forall|id: u64| #[trigger]
            pass.orders.contains_key(id) ==> pass.orders[id].remaining_quantity.units()
                - pass.run().orders[id].remaining_quantity.units() == traded_with(
                pass.trades(),
                id,
            ),
        forall|k: int|
            0 <= k < pass.trades().len() ==> pass.levels.contains_key(
                (#[trigger] pass.trades()[k]).price,
            ),
    decreases pass.levels.dom().len(), pass.levels[pass.price()].len(),
{
    if pass.can_trade() {
        let next = pass.trade();
        let t = pass.next_trade();
        pass.lemma_trade();
        if next.incoming.remaining_quantity.units() > 0 {
            law_fills_add_up(next);
            let all = pass.trades();
            assert(all == seq![t] + next.trades());
            assert(all[0] == t);
            assert(all.drop_first() =~= next.trades());
            assert forall|id: u64| #[trigger] pass.orders.contains_key(id) implies pass.orders[id].remaining_quantity.units()
                - pass.run().orders[id].remaining_quantity.units() == traded_with(all, id) by {
                assert(next.orders.contains_key(id));
            }
            assert forall|k: int| 0 <= k < all.len() implies pass.levels.contains_key(
                (#[trigger] all[k]).price,
            ) by {
                if k > 0 {
                    assert(all[k] == next.trades()[k - 1]);
                    assert(next.levels.contains_key(next.trades()[k - 1].price));
                }
            }
        } else {
            let all = pass.trades();
            assert(all == seq![t]);
            assert(all.drop_first() =~= Seq::<crate::model::Trade>::empty());
            assert(traded_total(all.drop_first()) == 0);
            assert forall|id: u64| #[trigger] pass.orders.contains_key(id) implies pass.orders[id].remaining_quantity.units()
                - pass.run().orders[id].remaining_quantity.units() == traded_with(all, id) by {
                assert(traded_with(all.drop_first(), id) == 0);
            }
        }
    } else {
        assert(pass.trades() =~= Seq::<crate::model::Trade>::empty());
    }
}

/// No cross.  Whatever order is placed on a well-formed state, the state
/// stays well-formed, and so every bid price stays below every ask price.
pub proof fn law_no_cross(state: BookModel, order: Order)
    requires
        state.wf(),
    ensures
        state.place(order).0.wf(),
        state.place(order).0.no_cross(),
        forall|b: Amount, a: Amount|
            is_best(state.place(order).0.bids.dom(), Side::Bid, b) && is_best(
                state.place(order).0.asks.dom(),
                Side::Ask,
                a,
            ) ==> b.units() < a.units(),
{
    state.lemma_place_wf(order);
}

/// Price priority.  A trade takes place at the best price of the resting
/// side: no other level of that side has a price as good.
pub proof fn law_price_priority(pass: Sweep)
    requires
        pass.wf(),
        pass.can_trade(),
    ensures
        pass.resting().price == pass.price(),
        pass.levels.contains_key(pass.price()),
        forall|q: Amount|
            q != pass.price() && #[trigger] pass.levels.contains_key(q) ==> pass.side().better(
                pass.price(),
                q,
            ),
{
    pass.lemma_trade();
}

/// Whether an order that rested at price `p` before a pass has traded in it.
pub open spec fn traded_at(before: Sweep, after: Sweep, p: Amount) -> bool {
    &&& before.levels.contains_key(p)
    &&& exists|i: int|
        0 <= i < before.levels[p].len() && #[trigger] after.orders[before.levels[p][i]]
            != before.orders[before.levels[p][i]]
}

/// Price priority over a whole pass.  Where an order at price `p` has
/// traded, every level with a better price has been used up: it is no
/// longer in the book.
pub proof fn law_better_levels_first(pass: Sweep, p: Amount, q: Amount)
    requires
        pass.wf(),
        traded_at(pass, pass.run(), p),
        pass.levels.contains_key(q),
        pass.side().better(q, p),
    ensures
        !pass.run().levels.contains_key(q),
    decreases pass.levels.dom().len(), pass.levels[pass.price()].len(),
{
    if pass.can_trade() {
        let next = pass.trade();
        let last = pass.run();
        let b = pass.price();
        let rid = pass.resting_id();
        pass.lemma_trade();
        let i = choose|i: int|
            0 <= i < pass.levels[p].len() && #[trigger] last.orders[pass.levels[p][i]]
                != pass.orders[pass.levels[p][i]];
        let id = pass.levels[p][i];
        assert(level_ok(pass.orders, pass.side(), p, pass.levels[p]));
        assert(resting_ok(pass.orders, pass.side(), p, id));
        if p == b {
            assert(pass.side().better(b, q));
        } else {
            assert(id != rid);
            assert(next.orders[id] == pass.orders[id]);
            assert(last != next);
            assert(last == next.run());
            assert(next.levels.contains_key(p) && next.levels[p] == pass.levels[p]);
            assert(traded_at(next, next.run(), p));
            if next.levels.contains_key(q) {
                law_better_levels_first(next, p, q);
            } else {
                next.lemma_run();
            }
        }
    }
}

/// Time priority.  The order that trades is the first of its level's
/// queue; and where the queue is in the order of its timestamps, no order
/// at that price carries an earlier timestamp.
pub proof fn law_time_priority(pass: Sweep)
    requires
        pass.wf(),
        pass.can_trade(),
        time_ordered(pass.orders, pass.levels),
    ensures
        pass.resting_id() == pass.levels[pass.price()][0],
        forall|j: int|
            0 <= j < pass.levels[pass.price()].len() ==> pass.resting().timestamp.at_or_before(
                (#[trigger] pass.orders[pass.levels[pass.price()][j]]).timestamp,
            ),
{
    pass.lemma_trade();
    let queue = pass.levels[pass.price()];
    assert forall|j: int| 0 <= j < queue.len() implies pass.resting().timestamp.at_or_before(
        (#[trigger] pass.orders[queue[j]]).timestamp,
    ) by {
        if j > 0 {
            assert(pass.orders[queue[0]].timestamp.at_or_before(pass.orders[queue[j]].timestamp));
        }
    }
}

/// Time priority over a whole pass.  Where an order of a level has traded,
/// every order ahead of it in the queue of that level has been filled.
pub proof fn law_earlier_orders_first(pass: Sweep, p: Amount, i: int, j: int)
    requires
        pass.wf(),
        pass.levels.contains_key(p),
        0 <= i < j < pass.levels[p].len(),
        pass.run().orders[pass.levels[p][j]] != pass.orders[pass.levels[p][j]],
    ensures
        pass.run().orders[pass.levels[p][i]].remaining_quantity.units() == 0,
    decreases pass.levels.dom().len(), pass.levels[pass.price()].len(),
{
    if pass.can_trade() {
        let next = pass.trade();
        let last = pass.run();
        let b = pass.price();
        let rid = pass.resting_id();
        let queue = pass.levels[p];
        pass.lemma_trade();
        assert(level_ok(pass.orders, pass.side(), p, queue));
        assert(resting_ok(pass.orders, pass.side(), p, queue[j]));
        assert(resting_ok(pass.orders, pass.side(), p, queue[i]));
        assert(queue[j] != rid);
        assert(next.orders[queue[j]] == pass.orders[queue[j]]);
        assert(last == next.run());
        if p != b {
            assert(next.levels.contains_key(p) && next.levels[p] == queue);
            law_earlier_orders_first(next, p, i, j);
        } else {
            assert(next.levels[b] == queue.drop_first());
            if i == 0 {
                next.lemma_run();
                assert(next.orders.contains_key(rid));
                assert(advanced(next.orders[rid], last.orders[rid]));
            } else {
                assert(next.levels[b][i - 1] == queue[i]);
                assert(next.levels[b][j - 1] == queue[j]);
                law_earlier_orders_first(next, p, i - 1, j - 1);
            }
        }
    }
}

/// Queues stay in the order of their timestamps through a matching pass.
pub proof fn lemma_run_time_ordered(pass: Sweep)
    requires
        pass.wf(),
        time_ordered(pass.orders, pass.levels),
    ensures
        time_ordered(pass.run().orders, pass.run().levels),
{
    pass.lemma_run();
    let last = pass.run();
    assert forall|p: Amount, i: int, j: int|
        last.levels.contains_key(p) && 0 <= i < j < last.levels[p].len() implies (
    #[trigger] last.orders[last.levels[p][i]]).timestamp.at_or_before(
        (#[trigger] last.orders[last.levels[p][j]]).timestamp,
    ) by {
        let old_queue = pass.levels[p];
        let queue = last.levels[p];
        assert(pass.levels.contains_key(p));
        assert(is_suffix(queue, old_queue));
        let shift = old_queue.len() - queue.len();
        assert(queue[i] == old_queue[shift + i]);
        assert(queue[j] == old_queue[shift + j]);
        assert(level_ok(pass.orders, pass.side(), p, old_queue));
        assert(resting_ok(pass.orders, pass.side(), p, old_queue[shift + i]));
        assert(resting_ok(pass.orders, pass.side(), p, old_queue[shift + j]));
        assert(advanced(pass.orders[queue[i]], last.orders[queue[i]]));
        assert(advanced(pass.orders[queue[j]], last.orders[queue[j]]));
        assert(pass.orders[old_queue[shift + i]].timestamp.at_or_before(
            pass.orders[old_queue[shift + j]].timestamp,
        ));
    }
}

/// Whether `order` carries no earlier timestamp than any order that rests
/// at its price on its side.
pub open spec fn arrives_in_time(state: BookModel, order: Order) -> bool {
    let levels = state.levels(order.side);
    levels.contains_key(order.price) ==> forall|i: int|
        0 <= i < levels[order.price].len() ==> (#[trigger] state.orders[levels[order.price][i]]).timestamp.at_or_before(
            order.timestamp,
        )
}

/// Time order is kept.  Where every queue is in the order of its
/// timestamps and the order placed is no earlier than those resting at its
/// price, every queue is in the order of its timestamps afterwards.
pub proof fn law_time_order_kept(state: BookModel, order: Order)
    requires
        state.wf(),
        time_ordered(state.orders, state.bids),
        time_ordered(state.orders, state.asks),
        arrives_in_time(state, order),
    ensures
        time_ordered(state.place(order).0.orders, state.place(order).0.bids),
        time_ordered(state.place(order).0.orders, state.place(order).0.asks),
{
    if state.accepts(order) {
        let side = order.side;
        let opp = side.opposite();
        let start = state.sweep(order);
        start.lemma_run();
        lemma_run_time_ordered(start);
        let pass = start.run();
        let done = pass.incoming;
        let after = state.place(order).0;
        let orders = after.orders;
        let own_before = state.levels(side);
        let own = after.levels(side);
        assert(after.levels(opp) == pass.levels);
        // the side that the order traded against
        assert(time_ordered(orders, pass.levels)) by {
            assert forall|p: Amount, i: int, j: int|
                pass.levels.contains_key(p) && 0 <= i < j < pass.levels[p].len() implies (
            #[trigger] orders[pass.levels[p][i]]).timestamp.at_or_before(
                (#[trigger] orders[pass.levels[p][j]]).timestamp,
            ) by {
                assert(level_ok(pass.orders, opp, p, pass.levels[p]));
                assert(resting_ok(pass.orders, opp, p, pass.levels[p][i]));
                assert(resting_ok(pass.orders, opp, p, pass.levels[p][j]));
                assert(pass.orders[pass.levels[p][i]].timestamp.at_or_before(
                    pass.orders[pass.levels[p][j]].timestamp,
                ));
            }
        }
        // the side of the order itself
        assert(time_ordered(orders, own)) by {
            assert forall|p: Amount, i: int, j: int|
                own.contains_key(p) && 0 <= i < j < own[p].len() implies (#[trigger] orders[own[p][i]]).timestamp.at_or_before(
                (#[trigger] orders[own[p][j]]).timestamp,
            ) by {
                if own_before.contains_key(p) {
                    let before = own_before[p];
                    assert(level_ok(state.orders, side, p, before));
                    assert(resting_ok(state.orders, side, p, before[i]));
                    assert(advanced(state.orders[before[i]], pass.orders[before[i]]));
                    if j < before.len() {
                        assert(resting_ok(state.orders, side, p, before[j]));
                        assert(advanced(state.orders[before[j]], pass.orders[before[j]]));
                        assert(state.orders[before[i]].timestamp.at_or_before(
                            state.orders[before[j]].timestamp,
                        ));
                    } else {
                        assert(p == done.price);
                        assert(own[p][j] == done.id);
                    }
                }
            }
        }
        match side {
            Side::Bid => {
                assert(after.bids == own && after.asks == pass.levels);
            },
            Side::Ask => {
                assert(after.asks == own && after.bids == pass.levels);
            },
        }
    }
}

/// Monotonicity.  Placing an order never makes the open part of any order
/// grow: each record stays in the registry with the same terms and an open
/// part that is no larger, and the order placed comes back with an open
/// part no larger than its quantity.
pub proof fn law_monotonic(state: BookModel, order: Order)
    requires
        state.wf(),
    ensures
        forall|id: u64| #[trigger]
            state.orders.contains_key(id) ==> state.place(order).0.orders.contains_key(id)
                && advanced(state.orders[id], state.place(order).0.orders[id]),
        advanced(order, state.place(order).1),
        state.accepts(order) ==> state.place(order).1.remaining_quantity.units()
            <= order.quantity.units(),
{
    if state.accepts(order) {
        let start = state.sweep(order);
        start.lemma_run();
    }
}

/// The life of an order.  A recorded order is never `Rejected`; once
/// `Filled` it stays `Filled`; and once `PartiallyFilled` it is never `New`
/// again.
pub proof fn law_lifecycle(state: BookModel, order: Order, id: u64)
    requires
        state.wf(),
        state.orders.contains_key(id),
    ensures
        state.orders[id].status != OrderStatus::Rejected,
        state.place(order).0.orders[id].status != OrderStatus::Rejected,
        state.orders[id].status == OrderStatus::Filled ==> state.place(order).0.orders[id].status
            == OrderStatus::Filled,
        state.orders[id].status == OrderStatus::PartiallyFilled ==> state.place(
            order,
        ).0.orders[id].status != OrderStatus::New,
{
    law_monotonic(state, order);
    state.lemma_place_wf(order);
    assert(state.place(order).0.orders.contains_key(id));
}

/// What placing an order records.  An order that is taken is recorded as
/// it is returned, a live order, and the registry gains no other id; an
/// order that is not taken comes back rejected and leaves the state as it
/// was.
pub proof fn law_recorded(state: BookModel, order: Order)
    requires
        state.wf(),
    ensures
        state.accepts(order) ==> state.place(order).0.orders.dom() == state.orders.dom().insert(
            order.id,
        ) && state.place(order).0.orders[order.id] == state.place(order).1 && state.place(
            order,
        ).1.wf(),
        !state.accepts(order) ==> state.place(order).0 == state && state.place(order).1
            == order.rejected(),
{
    if state.accepts(order) {
        let start = state.sweep(order);
        start.lemma_run();
        assert(state.place(order).0.orders.dom() =~= state.orders.dom().insert(order.id));
    }
}

/// Market orders never rest.  After a market order is placed, the side of
/// the order holds the levels that it held before.
pub proof fn law_market_never_rests(state: BookModel, order: Order)
    requires
        state.wf(),
        order.order_type == OrderType::Market,
    ensures
        state.place(order).0.levels(order.side) == state.levels(order.side),
{
    if state.accepts(order) {
        let start = state.sweep(order);
        start.lemma_run();
    }
}

/// A trade drops from the book no order that still has an open part.
proof fn lemma_trade_complete(pass: Sweep)
    requires
        pass.wf(),
        pass.can_trade(),
        side_complete(pass.orders, pass.side(), pass.levels),
    ensures
        side_complete(pass.trade().orders, pass.side(), pass.trade().levels),
{
    pass.lemma_trade();
    let next = pass.trade();
    let b = pass.price();
    let rid = pass.resting_id();
    let queue = pass.levels[b];
    assert(level_ok(pass.orders, pass.side(), b, queue));
    assert forall|id: u64| #[trigger]
        next.orders.contains_key(id) && next.orders[id].side == pass.side()
            && next.orders[id].order_type == OrderType::Limit
            && next.orders[id].remaining_quantity.units() > 0 implies rests(
        next.levels,
        next.orders[id],
    ) by {
        assert(pass.orders.contains_key(id));
        if id == rid {
            assert(next.levels == pass.levels);
            assert(queue[0] == rid);
        } else {
            assert(next.orders[id] == pass.orders[id]);
            assert(rests(pass.levels, pass.orders[id]));
            let p = pass.orders[id].price;
            if p == b && next.levels != pass.levels {
                let i = choose|i: int| 0 <= i < queue.len() && queue[i] == id;
                assert(i > 0);
                assert(queue.len() > 1);
                assert(next.levels[b] == queue.drop_first());
                assert(queue.drop_first()[i - 1] == id);
            }
        }
    }
}

/// A matching pass drops from the book no order that still has an open part.
proof fn lemma_run_complete(pass: Sweep)
    requires
        pass.wf(),
        side_complete(pass.orders, pass.side(), pass.levels),
    ensures
        side_complete(pass.run().orders, pass.side(), pass.run().levels),
    decreases pass.levels.dom().len(), pass.levels[pass.price()].len(),
{
    if pass.can_trade() {
        let next = pass.trade();
        pass.lemma_trade();
        lemma_trade_complete(pass);
        if next.incoming.remaining_quantity.units() > 0 {
            lemma_run_complete(next);
        }
    }
}

/// Book and registry agree.  Where every limit order with an open part
/// rests in the book, the same holds after an order has been placed; and
/// every order that rests in the book is such an order, as well-formedness
/// says.
pub proof fn law_books_agree(state: BookModel, order: Order)
    requires
        state.wf(),
        state.complete(),
    ensures
        state.place(order).0.complete(),
{
    if state.accepts(order) {
        let side = order.side;
        let opp = side.opposite();
        let start = state.sweep(order);
        start.lemma_run();
        lemma_run_complete(start);
        let pass = start.run();
        let done = pass.incoming;
        let after = state.place(order).0;
        let own_before = state.levels(side);
        let own = after.levels(side);
        assert(after.levels(opp) == pass.levels);
        assert(side_complete(after.orders, opp, pass.levels)) by {
            assert forall|id: u64| #[trigger]
                after.orders.contains_key(id) && after.orders[id].side == opp
                    && after.orders[id].order_type == OrderType::Limit
                    && after.orders[id].remaining_quantity.units() > 0 implies rests(
                pass.levels,
                after.orders[id],
            ) by {
                assert(pass.orders.contains_key(id));
            }
        }
        assert(side_complete(after.orders, side, own)) by {
            assert forall|id: u64| #[trigger]
                after.orders.contains_key(id) && after.orders[id].side == side
                    && after.orders[id].order_type == OrderType::Limit
                    && after.orders[id].remaining_quantity.units() > 0 implies rests(
                own,
                after.orders[id],
            ) by {
                if id == done.id {
                    assert(own == crate::model::rest(own_before, done));
                    if own_before.contains_key(done.price) {
                        let queue = own_before[done.price];
                        assert(queue.push(done.id)[queue.len() as int] == done.id);
                    } else {
                        assert(seq![done.id][0] == done.id);
                    }
                } else {
                    assert(state.orders.contains_key(id));
                    assert(pass.orders[id] == state.orders[id]);
                    assert(rests(own_before, state.orders[id]));
                    let p = state.orders[id].price;
                    let queue = own_before[p];
                    let i = choose|i: int| 0 <= i < queue.len() && queue[i] == id;
                    if own != own_before && p == done.price {
                        assert(own[p] == queue.push(done.id));
                        assert(queue.push(done.id)[i] == id);
                    }
                }
            }
        }
        match side {
            Side::Bid => {
                assert(after.bids == own && after.asks == pass.levels);
            },
            Side::Ask => {
                assert(after.asks == own && after.bids == pass.levels);
            },
        }
    }
}

/// Two lists of the best prices of one set, to whatever depths, agree in
/// their first `n` places.
proof fn lemma_best_first_agree(
    a: Seq<Amount>,
    b: Seq<Amount>,
    prices: Set<Amount>,
    side: Side,
    depth: int,
    deeper: int,
    n: int,
)
    requires
        is_best_first(a, prices, side, depth),
        is_best_first(b, prices, side, deeper),
        forall|p: Amount| prices.contains(p) ==> p.wf(),
        0 <= n <= a.len(),
        n <= b.len(),
    ensures
        forall|i: int| 0 <= i < n ==> a[i] == b[i],
    decreases n,
{
    if n > 0 {
        lemma_best_first_agree(a, b, prices, side, depth, deeper, n - 1);
        let i = n - 1;
        let x = a[i];
        let y = b[i];
        assert(prices.contains(x) && prices.contains(y));
        if x != y {
            if x.units() == y.units() {
                lemma_units_injective(x, y);
            }
            if side.better(x, y) {
                lemma_not_listed(b, a, prices, side, deeper, depth, i);
                assert(side.better(b[i], x));
            } else {
                lemma_not_listed(a, b, prices, side, depth, deeper, i);
                assert(side.better(a[i], y));
            }
        }
    }
}

/// Where two lists of the best prices agree before place `i`, and the
/// second has the better price there, the first does not hold that price.
proof fn lemma_not_listed(
    a: Seq<Amount>,
    b: Seq<Amount>,
    prices: Set<Amount>,
    side: Side,
    depth: int,
    deeper: int,
    i: int,
)
    requires
        is_best_first(a, prices, side, depth),
        is_best_first(b, prices, side, deeper),
        0 <= i < a.len(),
        i < b.len(),
        forall|k: int| 0 <= k < i ==> a[k] == b[k],
        side.better(b[i], a[i]) || side.better(a[i], b[i]),
        !side.better(a[i], b[i]),
    ensures
        !a.contains(b[i]),
{
    if a.contains(b[i]) {
        let m = choose|m: int| 0 <= m < a.len() && a[m] == b[i];
        if m < i {
            assert(side.better(b[m], b[i]));
        } else if m > i {
            assert(side.better(a[i], a[m]));
        }
    }
}

/// The snapshot is determined, and a deeper one only adds to it.  The
/// snapshot of one side to a depth is the front of its snapshot to any
/// greater depth; so two snapshots to one depth are the same, row by row.
pub proof fn law_snapshot_prefix(
    first: Seq<(Amount, Total)>,
    second: Seq<(Amount, Total)>,
    levels: Levels,
    orders: Registry,
    side: Side,
    depth: int,
    deeper: int,
)
    requires
        is_snapshot(first, levels, orders, side, depth),
        is_snapshot(second, levels, orders, side, deeper),
        forall|p: Amount| levels.contains_key(p) ==> p.wf(),
        0 <= depth <= deeper,
    ensures
        first.len() <= second.len(),
        first == second.take(first.len() as int),
        depth == deeper ==> first == second,
{
    let a = Seq::new(first.len(), |i: int| first[i].0);
    let b = Seq::new(second.len(), |i: int| second[i].0);
    lemma_best_first_agree(a, b, levels.dom(), side, depth, deeper, a.len() as int);
    assert forall|i: int| 0 <= i < first.len() implies first[i] == second[i] by {
        assert(a[i] == b[i]);
        lemma_total_injective(first[i].1, second[i].1);
    }
    assert(first =~= second.take(first.len() as int));
    if depth == deeper {
        assert(second.take(first.len() as int) =~= second);
    }
}

/// The shape of a snapshot.  It has at most `depth` rows, and as many as
/// the side has levels where that is fewer; each row is a level of the
/// side, with a total above zero; and the prices get strictly worse from
/// row to row, so that no price is shown twice.
pub proof fn law_snapshot_shape(
    state: BookModel,
    side: Side,
    rows: Seq<(Amount, Total)>,
    depth: int,
)
    requires
        state.wf(),
        is_snapshot(rows, state.levels(side), state.orders, side, depth),
        0 <= depth,
    ensures
        rows.len() <= depth,
        rows.len() <= state.levels(side).dom().len(),
        rows.len() == depth || rows.len() == state.levels(side).dom().len(),
        forall|i: int|
            0 <= i < rows.len() ==> state.levels(side).contains_key((#[trigger] rows[i]).0)
                && rows[i].1.units() > 0,
        forall|i: int, j: int|
            0 <= i < j < rows.len() ==> side.better((#[trigger] rows[i]).0, (#[trigger] rows[j]).0),
{
    let levels = state.levels(side);
    let listed = Seq::new(rows.len(), |i: int| rows[i].0);
    assert forall|i: int| 0 <= i < rows.len() implies levels.contains_key((#[trigger] rows[i]).0)
        && rows[i].1.units() > 0 by {
        assert(levels.dom().contains(listed[i]));
        let queue = levels[rows[i].0];
        assert(level_ok(state.orders, side, rows[i].0, queue));
        assert(resting_ok(state.orders, side, rows[i].0, queue[0]));
    }
    assert forall|i: int, j: int| 0 <= i < j < rows.len() implies side.better(
        (#[trigger] rows[i]).0,
        (#[trigger] rows[j]).0,
    ) by {
        assert(side.better(listed[i], listed[j]));
    }
}

/// The book shows what rests.  In a state whose book misses no order, a
/// snapshot that is deep enough for all levels of a side shows the price of
/// every limit order of that side that has an open part; and by its shape
/// it shows no price at which none rests.
pub proof fn law_snapshot_shows_open_orders(
    state: BookModel,
    side: Side,
    rows: Seq<(Amount, Total)>,
    depth: int,
    id: u64,
)
    requires
        state.wf(),
        state.complete(),
        is_snapshot(rows, state.levels(side), state.orders, side, depth),
        depth >= state.levels(side).dom().len(),
        state.orders.contains_key(id),
        state.orders[id].side == side,
        state.orders[id].order_type == OrderType::Limit,
        state.orders[id].remaining_quantity.units() > 0,
    ensures
        exists|i: int| 0 <= i < rows.len() && (#[trigger] rows[i]).0 == state.orders[id].price,
{
    let levels = state.levels(side);
    let listed = Seq::new(rows.len(), |i: int| rows[i].0);
    let p = state.orders[id].price;
    assert(rests(levels, state.orders[id]));
    law_snapshot_shape(state, side, rows, depth);
    assert(listed.no_duplicates()) by {
        assert forall|i: int, j: int|
            0 <= i < listed.len() && 0 <= j < listed.len() && i != j implies listed[i]
            != listed[j] by {
            if i < j {
                assert(side.better(listed[i], listed[j]));
            } else {
                assert(side.better(listed[j], listed[i]));
            }
        }
    }
    listed.unique_seq_to_set();
    assert(listed.to_set().subset_of(levels.dom())) by {
        assert forall|q: Amount| listed.to_set().contains(q) implies levels.dom().contains(q) by {
            let i = choose|i: int| 0 <= i < listed.len() && listed[i] == q;
            assert(levels.dom().contains(listed[i]));
        }
    }
    vstd::seq_lib::seq_to_set_is_finite(listed);
    vstd::set_lib::lemma_subset_equality(listed.to_set(), levels.dom());
    assert(listed.to_set().contains(p));
    let i = choose|i: int| 0 <= i < listed.len() && listed[i] == p;
    assert(rows[i].0 == p);
}

} // verus!
