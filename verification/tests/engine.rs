use kobara_ob::amount::{Amount, Total};
use kobara_ob::engine::MatchingEngine;
use kobara_ob::order::{Order, OrderStatus, OrderType, Side, Timestamp};

fn dec(mantissa: u128, scale: u32) -> Amount {
    Amount::from_decimal(mantissa, scale).unwrap()
}

fn narrow(rows: Vec<(Amount, Total)>) -> Vec<(Amount, Amount)> {
    rows.into_iter().map(|(price, total)| (price, total.to_amount().unwrap())).collect()
}

fn snapshot(
    engine: &MatchingEngine,
    depth: usize,
) -> (Vec<(Amount, Amount)>, Vec<(Amount, Amount)>) {
    let (bids, asks) = engine.get_order_book(depth);
    (narrow(bids), narrow(asks))
}

fn at(seconds: i64) -> Timestamp {
    Timestamp { seconds, nanos: 0 }
}

fn limit(id: u64, side: Side, price: Amount, quantity: Amount, seconds: i64) -> Order {
    Order::new(id, price, quantity, side, OrderType::Limit, at(seconds))
}

fn market(id: u64, side: Side, quantity: Amount, seconds: i64) -> Order {
    Order::new(id, Amount::zero(), quantity, side, OrderType::Market, at(seconds))
}

#[test]
fn limit_bid_rests_on_empty_book() {
    let mut engine = MatchingEngine::new();
    let placed = engine.place_order(limit(1, Side::Bid, dec(1000, 2), dec(5, 0), 1));
    assert_eq!(placed.status, OrderStatus::New);
    assert_eq!(placed.remaining_quantity, dec(5, 0));
    let (bids, asks) = snapshot(&engine, 5);
    assert_eq!(bids, vec![(dec(1000, 2), dec(5, 0))]);
    assert_eq!(asks, vec![]);
}

#[test]
fn limit_ask_fills_against_resting_bid() {
    let mut engine = MatchingEngine::new();
    engine.place_order(limit(1, Side::Bid, dec(1000, 2), dec(5, 0), 1));
    let placed = engine.place_order(limit(2, Side::Ask, dec(1000, 2), dec(3, 0), 2));
    assert_eq!(placed.status, OrderStatus::Filled);
    assert_eq!(placed.remaining_quantity, Amount::zero());
    let first = engine.get_order_status(1).unwrap();
    assert_eq!(first.status, OrderStatus::PartiallyFilled);
    assert_eq!(first.remaining_quantity, dec(2, 0));
    let (bids, asks) = snapshot(&engine, 5);
    assert_eq!(bids, vec![(dec(1000, 2), dec(2, 0))]);
    assert_eq!(asks, vec![]);
}

#[test]
fn market_ask_remainder_is_dropped() {
    let mut engine = MatchingEngine::new();
    engine.place_order(limit(1, Side::Bid, dec(1000, 2), dec(5, 0), 1));
    engine.place_order(limit(2, Side::Ask, dec(1000, 2), dec(3, 0), 2));
    let placed = engine.place_order(market(3, Side::Ask, dec(10, 0), 3));
    assert_eq!(placed.remaining_quantity, dec(8, 0));
    assert_eq!(placed.status, OrderStatus::PartiallyFilled);
    let first = engine.get_order_status(1).unwrap();
    assert_eq!(first.status, OrderStatus::Filled);
    assert_eq!(first.remaining_quantity, Amount::zero());
    let (bids, asks) = snapshot(&engine, 5);
    assert_eq!(bids, vec![]);
    assert_eq!(asks, vec![]);
    assert_eq!(engine.get_order_status(3), Some(placed));
}

#[test]
fn bid_below_best_ask_rests_without_trading() {
    let mut engine = MatchingEngine::new();
    engine.place_order(limit(1, Side::Ask, dec(950, 2), dec(2, 0), 1));
    let placed = engine.place_order(limit(4, Side::Bid, dec(900, 2), dec(1, 0), 2));
    assert_eq!(placed.status, OrderStatus::New);
    assert_eq!(placed.remaining_quantity, dec(1, 0));
    let (bids, asks) = snapshot(&engine, 5);
    assert_eq!(bids, vec![(dec(900, 2), dec(1, 0))]);
    assert_eq!(asks, vec![(dec(950, 2), dec(2, 0))]);
}

#[test]
fn status_of_unknown_id_is_absent() {
    let mut engine = MatchingEngine::new();
    assert_eq!(engine.get_order_status(7), None);
    engine.place_order(limit(1, Side::Bid, dec(1000, 2), dec(5, 0), 1));
    assert_eq!(engine.get_order_status(7), None);
    assert!(engine.get_order_status(1).is_some());
}

#[test]
fn market_order_on_empty_book_matches_nothing() {
    let mut engine = MatchingEngine::new();
    let placed = engine.place_order(market(1, Side::Bid, dec(4, 0), 1));
    assert_eq!(placed.status, OrderStatus::New);
    assert_eq!(placed.remaining_quantity, dec(4, 0));
    let (bids, asks) = snapshot(&engine, 3);
    assert!(bids.is_empty());
    assert!(asks.is_empty());
    assert_eq!(engine.get_order_status(1), Some(placed));
}

#[test]
fn each_trade_takes_the_same_from_both_sides() {
    let mut engine = MatchingEngine::new();
    engine.place_order(limit(1, Side::Ask, dec(101, 1), dec(25, 1), 1));
    engine.place_order(limit(2, Side::Ask, dec(102, 1), dec(40, 1), 2));
    let placed = engine.place_order(limit(3, Side::Bid, dec(102, 1), dec(50, 1), 3));
    // 2.5 at 10.1, then 2.5 at 10.2
    assert_eq!(placed.remaining_quantity, Amount::zero());
    assert_eq!(placed.status, OrderStatus::Filled);
    let first = engine.get_order_status(1).unwrap();
    let second = engine.get_order_status(2).unwrap();
    assert_eq!(first.remaining_quantity, Amount::zero());
    assert_eq!(second.remaining_quantity, dec(15, 1));
    let given_by_asks = first.quantity.minus(&first.remaining_quantity).plus(
        &second.quantity.minus(&second.remaining_quantity),
    );
    let taken_by_bid = placed.quantity.minus(&placed.remaining_quantity);
    assert_eq!(given_by_asks, taken_by_bid);
    assert_eq!(taken_by_bid, dec(5, 0));
}

#[test]
fn book_is_never_left_crossed() {
    let mut engine = MatchingEngine::new();
    engine.place_order(limit(1, Side::Ask, dec(1010, 2), dec(1, 0), 1));
    engine.place_order(limit(2, Side::Ask, dec(1020, 2), dec(1, 0), 2));
    engine.place_order(limit(3, Side::Bid, dec(1000, 2), dec(1, 0), 3));
    // crosses the first ask, and rests with what is left at 10.15
    let placed = engine.place_order(limit(4, Side::Bid, dec(1015, 2), dec(3, 0), 4));
    assert_eq!(placed.remaining_quantity, dec(2, 0));
    assert_eq!(placed.status, OrderStatus::PartiallyFilled);
    let (bids, asks) = snapshot(&engine, 10);
    assert_eq!(bids, vec![(dec(1015, 2), dec(2, 0)), (dec(1000, 2), dec(1, 0))]);
    assert_eq!(asks, vec![(dec(1020, 2), dec(1, 0))]);
    assert!(bids[0].0.lt(&asks[0].0));
}

#[test]
fn earlier_order_at_a_price_trades_first() {
    let mut engine = MatchingEngine::new();
    engine.place_order(limit(1, Side::Bid, dec(10, 0), dec(2, 0), 1));
    engine.place_order(limit(2, Side::Bid, dec(10, 0), dec(2, 0), 2));
    engine.place_order(limit(3, Side::Ask, dec(10, 0), dec(3, 0), 3));
    let first = engine.get_order_status(1).unwrap();
    let second = engine.get_order_status(2).unwrap();
    assert_eq!(first.status, OrderStatus::Filled);
    assert_eq!(first.remaining_quantity, Amount::zero());
    assert_eq!(second.status, OrderStatus::PartiallyFilled);
    assert_eq!(second.remaining_quantity, dec(1, 0));
    let (bids, _) = snapshot(&engine, 1);
    assert_eq!(bids, vec![(dec(10, 0), dec(1, 0))]);
}

#[test]
fn better_price_trades_before_worse() {
    let mut engine = MatchingEngine::new();
    engine.place_order(limit(1, Side::Ask, dec(12, 0), dec(1, 0), 1));
    engine.place_order(limit(2, Side::Ask, dec(11, 0), dec(1, 0), 2));
    engine.place_order(limit(3, Side::Ask, dec(13, 0), dec(1, 0), 3));
    let placed = engine.place_order(limit(4, Side::Bid, dec(12, 0), dec(1, 0), 4));
    assert_eq!(placed.status, OrderStatus::Filled);
    assert_eq!(engine.get_order_status(2).unwrap().status, OrderStatus::Filled);
    assert_eq!(engine.get_order_status(1).unwrap().status, OrderStatus::New);
    assert_eq!(engine.get_order_status(3).unwrap().status, OrderStatus::New);
    let (_, asks) = snapshot(&engine, 5);
    assert_eq!(asks, vec![(dec(12, 0), dec(1, 0)), (dec(13, 0), dec(1, 0))]);
}

#[test]
fn best_bid_is_the_highest() {
    let mut engine = MatchingEngine::new();
    engine.place_order(limit(1, Side::Bid, dec(7, 0), dec(1, 0), 1));
    engine.place_order(limit(2, Side::Bid, dec(9, 0), dec(1, 0), 2));
    engine.place_order(limit(3, Side::Bid, dec(8, 0), dec(1, 0), 3));
    let placed = engine.place_order(market(4, Side::Ask, dec(1, 0), 4));
    assert_eq!(placed.status, OrderStatus::Filled);
    assert_eq!(engine.get_order_status(2).unwrap().status, OrderStatus::Filled);
    let (bids, _) = snapshot(&engine, 5);
    assert_eq!(bids, vec![(dec(8, 0), dec(1, 0)), (dec(7, 0), dec(1, 0))]);
}

#[test]
fn open_part_never_grows() {
    let mut engine = MatchingEngine::new();
    engine.place_order(limit(1, Side::Bid, dec(10, 0), dec(5, 0), 1));
    let mut last = engine.get_order_status(1).unwrap().remaining_quantity;
    for id in 2..6u64 {
        engine.place_order(limit(id, Side::Ask, dec(10, 0), dec(1, 0), id as i64));
        let now = engine.get_order_status(1).unwrap().remaining_quantity;
        assert!(now.le(&last));
        last = now;
    }
    assert_eq!(last, dec(1, 0));
}

#[test]
fn incoming_order_sweeps_several_levels() {
    let mut engine = MatchingEngine::new();
    engine.place_order(limit(1, Side::Bid, dec(10, 0), dec(1, 0), 1));
    engine.place_order(limit(2, Side::Bid, dec(9, 0), dec(2, 0), 2));
    engine.place_order(limit(3, Side::Bid, dec(8, 0), dec(4, 0), 3));
    let placed = engine.place_order(limit(4, Side::Ask, dec(85, 1), dec(5, 0), 4));
    assert_eq!(placed.status, OrderStatus::PartiallyFilled);
    assert_eq!(placed.remaining_quantity, dec(2, 0));
    let (bids, asks) = snapshot(&engine, 5);
    assert_eq!(bids, vec![(dec(8, 0), dec(4, 0))]);
    assert_eq!(asks, vec![(dec(85, 1), dec(2, 0))]);
}

#[test]
fn level_total_is_the_sum_of_its_orders() {
    let mut engine = MatchingEngine::new();
    engine.place_order(limit(1, Side::Ask, dec(5, 0), dec(15, 1), 1));
    engine.place_order(limit(2, Side::Ask, dec(50, 1), dec(25, 2), 2));
    engine.place_order(limit(3, Side::Ask, dec(6, 0), dec(1, 0), 3));
    let (_, asks) = snapshot(&engine, 5);
    assert_eq!(asks, vec![(dec(5, 0), dec(175, 2)), (dec(6, 0), dec(1, 0))]);
    engine.place_order(market(4, Side::Bid, dec(5, 1), 4));
    let (_, asks) = snapshot(&engine, 5);
    assert_eq!(asks, vec![(dec(5, 0), dec(125, 2)), (dec(6, 0), dec(1, 0))]);
}

#[test]
fn depth_limits_the_snapshot() {
    let mut engine = MatchingEngine::new();
    engine.place_order(limit(1, Side::Bid, dec(3, 0), dec(1, 0), 1));
    engine.place_order(limit(2, Side::Bid, dec(5, 0), dec(1, 0), 2));
    engine.place_order(limit(3, Side::Bid, dec(4, 0), dec(1, 0), 3));
    engine.place_order(limit(4, Side::Ask, dec(7, 0), dec(1, 0), 4));
    engine.place_order(limit(5, Side::Ask, dec(6, 0), dec(1, 0), 5));
    let (bids, asks) = snapshot(&engine, 0);
    assert!(bids.is_empty());
    assert!(asks.is_empty());
    let (bids, asks) = snapshot(&engine, 2);
    assert_eq!(bids, vec![(dec(5, 0), dec(1, 0)), (dec(4, 0), dec(1, 0))]);
    assert_eq!(asks, vec![(dec(6, 0), dec(1, 0)), (dec(7, 0), dec(1, 0))]);
    let (bids, asks) = snapshot(&engine, 9);
    assert_eq!(bids.len(), 3);
    assert_eq!(asks.len(), 2);
}

#[test]
fn queries_leave_the_state_alone() {
    let mut engine = MatchingEngine::new();
    engine.place_order(limit(1, Side::Bid, dec(10, 0), dec(5, 0), 1));
    engine.place_order(limit(2, Side::Ask, dec(11, 0), dec(5, 0), 2));
    let book = snapshot(&engine, 5);
    let status = engine.get_order_status(1);
    for _ in 0..3 {
        assert_eq!(snapshot(&engine, 5), book);
        assert_eq!(engine.get_order_status(1), status);
        assert_eq!(engine.get_order_status(9), None);
    }
}

#[test]
fn zero_quantity_is_rejected() {
    let mut engine = MatchingEngine::new();
    let placed = engine.place_order(limit(1, Side::Bid, dec(10, 0), Amount::zero(), 1));
    assert_eq!(placed.status, OrderStatus::Rejected);
    assert_eq!(engine.get_order_status(1), None);
    let (bids, asks) = snapshot(&engine, 5);
    assert!(bids.is_empty() && asks.is_empty());
}

#[test]
fn limit_order_without_price_is_rejected() {
    let mut engine = MatchingEngine::new();
    let placed = engine.place_order(limit(1, Side::Ask, Amount::zero(), dec(1, 0), 1));
    assert_eq!(placed.status, OrderStatus::Rejected);
    assert_eq!(placed.remaining_quantity, dec(1, 0));
    assert_eq!(engine.get_order_status(1), None);
}

#[test]
fn id_in_use_is_rejected() {
    let mut engine = MatchingEngine::new();
    engine.place_order(limit(1, Side::Bid, dec(10, 0), dec(5, 0), 1));
    let placed = engine.place_order(limit(1, Side::Ask, dec(10, 0), dec(2, 0), 2));
    assert_eq!(placed.status, OrderStatus::Rejected);
    let first = engine.get_order_status(1).unwrap();
    assert_eq!(first.side, Side::Bid);
    assert_eq!(first.remaining_quantity, dec(5, 0));
}

#[test]
fn order_that_is_not_fresh_is_rejected() {
    let mut engine = MatchingEngine::new();
    let mut order = limit(1, Side::Bid, dec(10, 0), dec(5, 0), 1);
    order.remaining_quantity = dec(4, 0);
    assert_eq!(engine.place_order(order).status, OrderStatus::Rejected);
    let mut order = limit(2, Side::Bid, dec(10, 0), dec(5, 0), 1);
    order.status = OrderStatus::Filled;
    assert_eq!(engine.place_order(order).status, OrderStatus::Rejected);
    assert_eq!(engine.get_order_status(1), None);
    assert_eq!(engine.get_order_status(2), None);
}

#[test]
fn quantity_of_any_size_is_taken() {
    let mut engine = MatchingEngine::new();
    let huge = Amount::new(u128::MAX, 0).unwrap();
    let placed = engine.place_order(limit(1, Side::Bid, dec(10, 0), huge, 1));
    assert_eq!(placed.status, OrderStatus::New);
    let placed = engine.place_order(limit(2, Side::Bid, dec(10, 0), huge, 2));
    assert_eq!(placed.status, OrderStatus::New);
    let (bids, _) = engine.get_order_book(1);
    assert_eq!(
        bids,
        vec![(dec(10, 0), Total { high: 1, low: Amount::new(u128::MAX - 1, 0).unwrap() })]
    );
    let placed = engine.place_order(market(3, Side::Ask, huge, 3));
    assert_eq!(placed.status, OrderStatus::Filled);
    let (bids, _) = engine.get_order_book(1);
    assert_eq!(bids, vec![(dec(10, 0), Total::of(huge))]);
    assert_eq!(engine.get_order_status(1).unwrap().status, OrderStatus::Filled);
    assert_eq!(engine.get_order_status(2).unwrap().status, OrderStatus::New);
}

#[test]
fn equal_prices_of_different_scale_share_a_level() {
    let mut engine = MatchingEngine::new();
    engine.place_order(limit(1, Side::Bid, dec(1000, 2), dec(1, 0), 1));
    engine.place_order(limit(2, Side::Bid, dec(10, 0), dec(2, 0), 2));
    let (bids, _) = snapshot(&engine, 5);
    assert_eq!(bids, vec![(dec(10, 0), dec(3, 0))]);
}

#[test]
fn market_bid_takes_the_lowest_asks() {
    let mut engine = MatchingEngine::new();
    engine.place_order(limit(1, Side::Ask, dec(20, 0), dec(1, 0), 1));
    engine.place_order(limit(2, Side::Ask, dec(10, 0), dec(1, 0), 2));
    let placed = engine.place_order(market(3, Side::Bid, dec(15, 1), 3));
    assert_eq!(placed.status, OrderStatus::Filled);
    assert_eq!(engine.get_order_status(2).unwrap().status, OrderStatus::Filled);
    let first = engine.get_order_status(1).unwrap();
    assert_eq!(first.status, OrderStatus::PartiallyFilled);
    assert_eq!(first.remaining_quantity, dec(5, 1));
}

#[test]
fn level_is_written_as_its_orders_are() {
    let mut engine = MatchingEngine::new();
    assert_eq!(engine.level_scales(Side::Bid, &dec(10, 0)), None);
    engine.place_order(limit(1, Side::Bid, dec(10, 0), dec(2, 0), 1).with_scales(2, 0));
    engine.place_order(limit(2, Side::Bid, dec(10, 0), dec(15, 1), 2).with_scales(0, 1));
    assert_eq!(engine.level_scales(Side::Bid, &dec(10, 0)), Some((2, 1)));
    assert_eq!(engine.level_scales(Side::Ask, &dec(10, 0)), None);
    assert_eq!(engine.level_scales(Side::Bid, &dec(11, 0)), None);
    engine.place_order(market(3, Side::Ask, dec(2, 0), 3));
    assert_eq!(engine.level_scales(Side::Bid, &dec(10, 0)), Some((0, 1)));
}

#[test]
fn open_part_is_written_with_the_most_digits_of_its_trades() {
    let mut engine = MatchingEngine::new();
    engine.place_order(limit(1, Side::Bid, dec(10, 0), dec(5, 0), 1));
    let placed =
        engine.place_order(limit(2, Side::Ask, dec(10, 0), dec(250, 2), 2).with_scales(0, 2));
    assert_eq!(placed.remaining_quantity, Amount::zero());
    assert_eq!(placed.remaining_scale, 2);
    let first = engine.get_order_status(1).unwrap();
    assert_eq!(first.remaining_quantity, dec(25, 1));
    assert_eq!(first.remaining_scale, 2);
    assert_eq!(first.quantity_scale, 0);
}
