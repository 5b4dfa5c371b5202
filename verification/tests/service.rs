use kobara_ob::amount::{Amount, Total};
use kobara_ob::decimal::{amount_of_decimal, amount_to_string, parse_amount, total_to_string};
use kobara_ob::engine::MatchingEngine;
use kobara_ob::order::{Order, OrderStatus, OrderType, Side, Timestamp};
use kobara_ob::service::OrderBookService;
use kobara_ob::wire::{
    render_levels, respond, side_from_code, timestamp_to_wire, type_from_code,
    GetOrderBookRequest, GetOrderStatusRequest, LevelRow, OrderRequest, OrderResponse,
    ServiceError, WireTimestamp,
};

fn request(id: u64, price: &str, quantity: &str, side: i32, order_type: i32) -> OrderRequest {
    OrderRequest { id, price: price.to_string(), quantity: quantity.to_string(), side, order_type }
}

fn service() -> OrderBookService {
    OrderBookService::new(MatchingEngine::new())
}

fn now() -> Timestamp {
    Timestamp { seconds: 1_700_000_000, nanos: 5 }
}

fn levels(service: &OrderBookService, depth: u32) -> (Vec<(String, String)>, Vec<(String, String)>) {
    let book = service.get_order_book(&GetOrderBookRequest { depth }).unwrap();
    (
        book.bids.into_iter().map(|l| (l.price, l.quantity)).collect(),
        book.asks.into_iter().map(|l| (l.price, l.quantity)).collect(),
    )
}

fn pair(price: &str, quantity: &str) -> (String, String) {
    (price.to_string(), quantity.to_string())
}

fn status_of(service: &OrderBookService, id: u64) -> Result<OrderResponse, ServiceError> {
    service.get_order_status(&GetOrderStatusRequest { order_id: id })
}

#[test]
fn parse_reads_sign_value_and_scale() {
    assert_eq!(parse_amount("10.50"), Some((false, Amount::from_decimal(105, 1).unwrap(), 2)));
    assert_eq!(parse_amount("-2.5"), Some((true, Amount::from_decimal(25, 1).unwrap(), 1)));
    assert_eq!(parse_amount("0"), Some((false, Amount::zero(), 0)));
    assert_eq!(parse_amount("abc"), None);
    assert_eq!(parse_amount(""), None);
}

#[test]
fn decimal_becomes_sign_and_magnitude() {
    assert_eq!(amount_of_decimal(-1500, 3), Some((true, Amount::from_decimal(15, 1).unwrap(), 3)));
    assert_eq!(amount_of_decimal(7, 0), Some((false, Amount::new(7, 0).unwrap(), 0)));
    assert_eq!(amount_of_decimal(7, 29), None);
    assert_eq!(amount_of_decimal(i128::MIN, 0), None);
}

#[test]
fn amount_is_written_with_the_digits_it_needs() {
    let a = Amount::from_decimal(1000, 2).unwrap();
    assert_eq!(amount_to_string(false, &a, 0), "10");
    assert_eq!(amount_to_string(true, &a, 0), "-10");
    let b = Amount::from_decimal(12340, 4).unwrap();
    assert_eq!(amount_to_string(false, &b, 0), "1.234");
    assert_eq!(amount_to_string(false, &b, 2), "1.234");
    let c = Amount::from_decimal(5, 3).unwrap();
    assert_eq!(amount_to_string(false, &c, 0), "0.005");
    assert_eq!(amount_to_string(false, &Amount::zero(), 0), "0");
    assert_eq!(amount_to_string(false, &Amount::new(1203, 0).unwrap(), 0), "1203");
}

#[test]
fn amount_is_written_with_the_digits_asked_for() {
    let a = Amount::from_decimal(1000, 2).unwrap();
    assert_eq!(amount_to_string(false, &a, 2), "10.00");
    assert_eq!(amount_to_string(true, &a, 1), "-10.0");
    assert_eq!(amount_to_string(false, &a, 28), "10.0000000000000000000000000000");
    assert_eq!(amount_to_string(false, &a, 500), "10.0000000000000000000000000000");
    let b = Amount::from_decimal(1234, 3).unwrap();
    assert_eq!(amount_to_string(false, &b, 4), "1.2340");
    assert_eq!(amount_to_string(false, &Amount::zero(), 3), "0.000");
}

#[test]
fn amount_beyond_96_bits_is_written_in_full() {
    assert_eq!(
        amount_to_string(false, &Amount::new(8, 1).unwrap(), 0),
        "8.0000000000000000000000000001"
    );
    assert_eq!(
        amount_to_string(false, &Amount::new(u128::MAX, 0).unwrap(), 0),
        "340282366920938463463374607431768211455"
    );
    let both = Amount::new(u128::MAX, 9_999_999_999_999_999_999_999_999_999).unwrap();
    assert_eq!(
        amount_to_string(true, &both, 0),
        "-340282366920938463463374607431768211455.9999999999999999999999999999"
    );
}

#[test]
fn total_is_written_in_full() {
    assert_eq!(total_to_string(&Total::zero(), 0), "0");
    assert_eq!(total_to_string(&Total::of(Amount::from_decimal(125, 2).unwrap()), 3), "1.250");
    let t = Total { high: 1, low: Amount::zero() };
    assert_eq!(total_to_string(&t, 0), "340282366920938463463374607431768211456");
    let t = Total { high: u64::MAX, low: Amount::new(u128::MAX, 5).unwrap() };
    assert_eq!(
        total_to_string(&t, 0),
        "6277101735386680763835789423207666416102355444464034512895.0000000000000000000000000005"
    );
}

#[test]
fn codes_stand_for_sides_and_types() {
    assert_eq!(side_from_code(0), Side::Bid);
    assert_eq!(side_from_code(1), Side::Ask);
    assert_eq!(side_from_code(-4), Side::Ask);
    assert_eq!(type_from_code(0), OrderType::Limit);
    assert_eq!(type_from_code(1), OrderType::Market);
    assert_eq!(type_from_code(9), OrderType::Market);
}

#[test]
fn nanoseconds_keep_their_bits() {
    assert_eq!(
        timestamp_to_wire(Timestamp { seconds: -3, nanos: 999_999_999 }),
        WireTimestamp { seconds: -3, nanos: 999_999_999 }
    );
    assert_eq!(
        timestamp_to_wire(Timestamp { seconds: 1, nanos: u32::MAX }),
        WireTimestamp { seconds: 1, nanos: -1 }
    );
    assert_eq!(
        timestamp_to_wire(Timestamp { seconds: 1, nanos: 1 << 31 }),
        WireTimestamp { seconds: 1, nanos: i32::MIN }
    );
}

#[test]
fn error_messages() {
    assert_eq!(ServiceError::InvalidPrice.message(), "Invalid price format");
    assert_eq!(ServiceError::InvalidQuantity.message(), "Invalid quantity format");
    assert_eq!(ServiceError::NotFound.message(), "Order not found");
}

#[test]
fn order_is_written_into_a_response() {
    let mut order = Order::new(
        9,
        Amount::from_decimal(1025, 2).unwrap(),
        Amount::from_decimal(30, 1).unwrap(),
        Side::Ask,
        OrderType::Limit,
        Timestamp { seconds: 12, nanos: 34 },
    )
    .with_scales(3, 1);
    order.execute(Amount::from_decimal(5, 1).unwrap(), 2);
    let response = respond(&order, false, false);
    assert_eq!(response.id, 9);
    assert_eq!(response.price, "10.250");
    assert_eq!(response.quantity, "3.0");
    assert_eq!(response.remaining_quantity, "2.50");
    assert_eq!(response.side, 1);
    assert_eq!(response.order_type, 0);
    assert_eq!(response.status, 1);
    assert_eq!(response.timestamp, Some(WireTimestamp { seconds: 12, nanos: 34 }));
}

#[test]
fn levels_are_written_row_by_row() {
    let rows = vec![
        LevelRow {
            price: Amount::from_decimal(101, 1).unwrap(),
            price_scale: 2,
            quantity: Total::of(Amount::new(2, 0).unwrap()),
            quantity_scale: 0,
        },
        LevelRow {
            price: Amount::from_decimal(99, 1).unwrap(),
            price_scale: 0,
            quantity: Total::of(Amount::from_decimal(75, 2).unwrap()),
            quantity_scale: 3,
        },
    ];
    let levels = render_levels(&rows);
    assert_eq!(levels.len(), 2);
    assert_eq!(levels[0].price, "10.10");
    assert_eq!(levels[0].quantity, "2");
    assert_eq!(levels[1].price, "9.9");
    assert_eq!(levels[1].quantity, "0.750");
    assert!(render_levels(&Vec::new()).is_empty());
}

#[test]
fn service_limit_bid_rests() {
    let mut service = service();
    let response = service.place_order_at(&request(1, "10.00", "5", 0, 0), now()).unwrap();
    assert_eq!(response.id, 1);
    assert_eq!(response.status, 0);
    assert_eq!(response.price, "10.00");
    assert_eq!(response.quantity, "5");
    assert_eq!(response.remaining_quantity, "5");
    assert_eq!(response.side, 0);
    assert_eq!(response.order_type, 0);
    assert_eq!(response.timestamp, Some(WireTimestamp { seconds: 1_700_000_000, nanos: 5 }));
    assert_eq!(levels(&service, 5), (vec![pair("10.00", "5")], vec![]));
}

#[test]
fn service_trade_and_status() {
    let mut service = service();
    service.place_order_at(&request(1, "10.00", "5", 0, 0), now()).unwrap();
    let response = service.place_order_at(&request(2, "10.00", "3", 1, 0), now()).unwrap();
    assert_eq!(response.status, 2);
    assert_eq!(response.remaining_quantity, "0");
    let first = status_of(&service, 1).unwrap();
    assert_eq!(first.status, 1);
    assert_eq!(first.price, "10.00");
    assert_eq!(first.quantity, "5");
    assert_eq!(first.remaining_quantity, "2");
    assert_eq!(levels(&service, 5), (vec![pair("10.00", "2")], vec![]));
    let response = service.place_order_at(&request(3, "0", "10", 1, 1), now()).unwrap();
    assert_eq!(response.status, 1);
    assert_eq!(response.order_type, 1);
    assert_eq!(response.remaining_quantity, "8");
    assert_eq!(status_of(&service, 1).unwrap().status, 2);
    assert_eq!(status_of(&service, 3).unwrap().remaining_quantity, "8");
    assert_eq!(levels(&service, 5), (vec![], vec![]));
}

#[test]
fn service_keeps_the_digits_after_the_point() {
    let mut service = service();
    service.place_order_at(&request(1, "10.0", "5", 0, 0), now()).unwrap();
    service.place_order_at(&request(2, "10.000", "1.50", 0, 0), now()).unwrap();
    assert_eq!(levels(&service, 5), (vec![pair("10.0", "6.50")], vec![]));
    let response = service.place_order_at(&request(3, "9", "5.250", 1, 0), now()).unwrap();
    assert_eq!(response.price, "9");
    assert_eq!(response.quantity, "5.250");
    assert_eq!(response.remaining_quantity, "0.000");
    assert_eq!(status_of(&service, 1).unwrap().remaining_quantity, "0");
    let second = status_of(&service, 2).unwrap();
    assert_eq!(second.price, "10.000");
    assert_eq!(second.quantity, "1.50");
    assert_eq!(second.remaining_quantity, "1.250");
    assert_eq!(levels(&service, 5), (vec![pair("10.000", "1.250")], vec![]));
}

#[test]
fn service_resting_bid_below_asks() {
    let mut service = service();
    service.place_order_at(&request(1, "9.50", "2", 1, 0), now()).unwrap();
    let response = service.place_order_at(&request(4, "9.00", "1", 0, 0), now()).unwrap();
    assert_eq!(response.status, 0);
    assert_eq!(levels(&service, 5), (vec![pair("9.00", "1")], vec![pair("9.50", "2")]));
}

#[test]
fn service_unknown_order() {
    let service = service();
    assert!(matches!(status_of(&service, 42), Err(ServiceError::NotFound)));
}

#[test]
fn service_rejects_text_that_is_no_number() {
    let mut service = service();
    assert!(matches!(
        service.place_order_at(&request(1, "ten", "5", 0, 0), now()),
        Err(ServiceError::InvalidPrice)
    ));
    assert!(matches!(
        service.place_order_at(&request(1, "10", "", 0, 0), now()),
        Err(ServiceError::InvalidQuantity)
    ));
    assert!(matches!(
        service.place_order_at(&request(1, "x", "y", 0, 0), now()),
        Err(ServiceError::InvalidPrice)
    ));
    assert!(matches!(
        service.place_order_at(&request(1, "x", "y", 0, 1), now()),
        Err(ServiceError::InvalidQuantity)
    ));
    assert!(matches!(status_of(&service, 1), Err(ServiceError::NotFound)));
}

#[test]
fn service_places_a_market_order_whatever_its_price() {
    let mut service = service();
    service.place_order_at(&request(1, "10", "5", 1, 0), now()).unwrap();
    let response = service.place_order_at(&request(2, "no price", "1", 0, 1), now()).unwrap();
    assert_eq!(response.status, 2);
    assert_eq!(response.price, "0");
    assert_eq!(response.remaining_quantity, "0");
    let response = service.place_order_at(&request(3, "-4.5", "1", 0, 1), now()).unwrap();
    assert_eq!(response.status, 2);
    assert_eq!(response.price, "0");
    let response = service.place_order_at(&request(4, "7.50", "1", 0, 1), now()).unwrap();
    assert_eq!(response.status, 2);
    assert_eq!(response.price, "7.50");
    assert_eq!(status_of(&service, 1).unwrap().remaining_quantity, "2");
    assert!(status_of(&service, 2).is_ok());
}

#[test]
fn service_reports_numbers_below_zero_as_rejected() {
    let mut service = service();
    let response = service.place_order_at(&request(1, "-10.50", "5", 0, 0), now()).unwrap();
    assert_eq!(response.status, 3);
    assert_eq!(response.price, "-10.50");
    assert_eq!(response.quantity, "5");
    assert_eq!(response.remaining_quantity, "5");
    let response = service.place_order_at(&request(2, "10", "-1", 1, 0), now()).unwrap();
    assert_eq!(response.status, 3);
    assert_eq!(response.price, "10");
    assert_eq!(response.quantity, "-1");
    assert_eq!(response.remaining_quantity, "-1");
    let response = service.place_order_at(&request(3, "10", "-1.0", 1, 1), now()).unwrap();
    assert_eq!(response.status, 3);
    assert_eq!(response.quantity, "-1.0");
    assert!(matches!(status_of(&service, 1), Err(ServiceError::NotFound)));
    assert!(matches!(status_of(&service, 2), Err(ServiceError::NotFound)));
    assert_eq!(levels(&service, 5), (vec![], vec![]));
}

#[test]
fn service_reports_engine_rejections() {
    let mut service = service();
    let response = service.place_order_at(&request(1, "10", "0", 0, 0), now()).unwrap();
    assert_eq!(response.status, 3);
    assert_eq!(response.quantity, "0");
    let response = service.place_order_at(&request(2, "0", "1", 0, 0), now()).unwrap();
    assert_eq!(response.status, 3);
    assert!(matches!(status_of(&service, 2), Err(ServiceError::NotFound)));
}

#[test]
fn service_takes_the_largest_decimal() {
    let mut service = service();
    let most = "79228162514264337593543950335";
    for id in 1..6u64 {
        let response = service.place_order_at(&request(id, most, most, 0, 0), now()).unwrap();
        assert_eq!(response.status, 0);
        assert_eq!(response.quantity, most);
    }
    assert_eq!(levels(&service, 1), (vec![pair(most, "396140812571321687967719751675")], vec![]));
}

#[test]
fn service_stamps_the_current_time() {
    let mut service = service();
    let response = service.place_order(&request(1, "10", "1", 0, 0)).unwrap();
    let stamp = response.timestamp.unwrap();
    assert!(stamp.seconds > 1_600_000_000);
    assert!(stamp.nanos >= 0);
    assert_eq!(status_of(&service, 1).unwrap().timestamp, Some(stamp));
    assert_eq!(response.status, 0);
}

#[test]
fn service_answers_where_a_number_needs_more_than_96_bits() {
    let mut service = service();
    service.place_order_at(&request(1, "1", "10000000000000000000", 0, 0), now()).unwrap();
    let response = service
        .place_order_at(&request(2, "1", "0.0000000000000000000000000001", 1, 0), now())
        .unwrap();
    assert_eq!(response.status, 2);
    assert_eq!(response.remaining_quantity, "0.0000000000000000000000000000");
    let first = status_of(&service, 1).unwrap();
    assert_eq!(first.status, 1);
    assert_eq!(first.quantity, "10000000000000000000");
    assert_eq!(first.remaining_quantity, "9999999999999999999.9999999999999999999999999999");
    assert_eq!(
        levels(&service, 1),
        (vec![pair("1", "9999999999999999999.9999999999999999999999999999")], vec![])
    );
}

#[test]
fn service_answers_after_a_trade_that_needs_more_than_96_bits() {
    let mut service = service();
    service
        .place_order_at(&request(1, "1", "0.0000000000000000000000000001", 0, 0), now())
        .unwrap();
    let response =
        service.place_order_at(&request(2, "1", "10000000000000000000", 1, 0), now()).unwrap();
    assert_eq!(response.status, 1);
    assert_eq!(response.remaining_quantity, "9999999999999999999.9999999999999999999999999999");
    assert_eq!(status_of(&service, 1).unwrap().status, 2);
    assert_eq!(
        levels(&service, 3),
        (vec![], vec![pair("1", "9999999999999999999.9999999999999999999999999999")])
    );
}

#[test]
fn service_keeps_status_codes() {
    let mut service = service();
    let order = Order::new(
        1,
        Amount::new(1, 0).unwrap(),
        Amount::new(1, 0).unwrap(),
        Side::Bid,
        OrderType::Market,
        now(),
    );
    let mut filled = order;
    filled.execute(Amount::new(1, 0).unwrap(), 0);
    assert_eq!(filled.status, OrderStatus::Filled);
    assert_eq!(respond(&filled, false, false).status, 2);
    assert_eq!(respond(&order, false, false).status, 0);
    assert_eq!(respond(&order, false, false).order_type, 1);
    let response = service.place_order_at(&request(5, "1", "1", 7, 7), now()).unwrap();
    assert_eq!(response.side, 1);
    assert_eq!(response.order_type, 1);
}
