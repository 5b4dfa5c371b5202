//! The messages of the service, and how orders are written into them.

use crate::amount::{Amount, Total};
use crate::decimal::{amount_text, amount_to_string, total_text, total_to_string};
use crate::order::{Order, OrderStatus, OrderType, Side, Timestamp};
use vstd::prelude::*;

verus! {

/// A request to place an order.  Price and quantity are decimal numbers as
/// text; side and type are numbers: 0 for a bid or a limit order, anything
/// else for an ask or a market order.
pub struct OrderRequest {
    pub id: u64,
    pub price: String,
    pub quantity: String,
    pub side: i32,
    pub order_type: i32,
}

/// An instant as the messages carry it.
#[derive(Clone, Copy, Debug, PartialEq, Eq, Structural)]
pub struct WireTimestamp {
    pub seconds: i64,
    pub nanos: i32,
}

/// An order as the service reports it.
pub struct OrderResponse {
    pub id: u64,
    pub price: String,
    pub quantity: String,
    pub remaining_quantity: String,
    pub side: i32,
    pub order_type: i32,
    pub status: i32,
    pub timestamp: Option<WireTimestamp>,
}

/// A request for the book to a given depth.
pub struct GetOrderBookRequest {
    pub depth: u32,
}

/// One level of the book: its price and its total open quantity, as text.
pub struct OrderBookLevel {
    pub price: String,
    pub quantity: String,
}

/// The book as the service reports it: each side best first.
pub struct OrderBookResponse {
    pub bids: Vec<OrderBookLevel>,
    pub asks: Vec<OrderBookLevel>,
}

/// A request for the status of an order.
pub struct GetOrderStatusRequest {
    pub order_id: u64,
}

/// Why the service did not answer a request.
#[derive(Clone, Copy, Debug, PartialEq, Eq, Structural)]
pub enum ServiceError {
    /// The price is not a decimal number.
    InvalidPrice,
    /// The quantity is not a decimal number.
    InvalidQuantity,
    /// No order of that id was accepted.
    NotFound,
}

impl ServiceError {
    /// The message that goes with the error.
    pub fn message(&self) -> (r: &'static str)
        ensures
            r@ == (match self {
                ServiceError::InvalidPrice => "Invalid price format"@,
                ServiceError::InvalidQuantity => "Invalid quantity format"@,
                ServiceError::NotFound => "Order not found"@,
            }),
    {
        match self {
            ServiceError::InvalidPrice => "Invalid price format",
            ServiceError::InvalidQuantity => "Invalid quantity format",
            ServiceError::NotFound => "Order not found",
        }
    }
}

/// The side that a number stands for.
pub open spec fn side_of(code: i32) -> Side {
    if code == 0 {
        Side::Bid
    } else {
        Side::Ask
    }
}

/// The order type that a number stands for.
pub open spec fn type_of(code: i32) -> OrderType {
    if code == 0 {
        OrderType::Limit
    } else {
        OrderType::Market
    }
}

/// The number that stands for a side.
pub open spec fn side_code(side: Side) -> i32 {
    match side {
        Side::Bid => 0,
        Side::Ask => 1,
    }
}

/// The number that stands for an order type.
pub open spec fn type_code(order_type: OrderType) -> i32 {
    match order_type {
        OrderType::Limit => 0,
        OrderType::Market => 1,
    }
}

/// The number that stands for a status.
pub open spec fn status_code(status: OrderStatus) -> i32 {
    match status {
        OrderStatus::New => 0,
        OrderStatus::PartiallyFilled => 1,
        OrderStatus::Filled => 2,
        OrderStatus::Rejected => 3,
    }
}

/// An instant as the messages carry it: the seconds as they are, and the
/// nanoseconds as the signed number with the same 32 bits.
pub open spec fn wire_timestamp(t: Timestamp) -> WireTimestamp {
    WireTimestamp {
        seconds: t.seconds,
        nanos: if t.nanos <= i32::MAX {
            t.nanos as i32
        } else {
            (t.nanos - 0x1_0000_0000) as i32
        },
    }
}

/// The side that `code` stands for.
pub fn side_from_code(code: i32) -> (r: Side)
    ensures
        r == side_of(code),
{
    if code == 0 {
        Side::Bid
    } else {
        Side::Ask
    }
}

/// The order type that `code` stands for.
pub fn type_from_code(code: i32) -> (r: OrderType)
    ensures
        r == type_of(code),
{
    if code == 0 {
        OrderType::Limit
    } else {
        OrderType::Market
    }
}

/// The instant `t` as the messages carry it.
pub fn timestamp_to_wire(t: Timestamp) -> (r: WireTimestamp)
    ensures
        r == wire_timestamp(t),
{
    let nanos: i32 = if t.nanos <= 0x7fff_ffff {
        t.nanos as i32
    } else {
        (t.nanos as i64 - 0x1_0000_0000) as i32
    };
    WireTimestamp { seconds: t.seconds, nanos }
}

/// Whether `response` reports `order`, with the given signs on its price
/// and on its quantities.  Each number is written with at least the digits
/// after the point that the order keeps for it.
pub open spec fn describes(
    response: OrderResponse,
    order: Order,
    negative_price: bool,
    negative_quantity: bool,
) -> bool {
    &&& response.id == order.id
    &&& response.price@ == amount_text(negative_price, order.price, order.price_scale as nat)
    &&& response.quantity@ == amount_text(
        negative_quantity,
        order.quantity,
        order.quantity_scale as nat,
    )
    &&& response.remaining_quantity@ == amount_text(
        negative_quantity,
        order.remaining_quantity,
        order.remaining_scale as nat,
    )
    &&& response.side == side_code(order.side)
    &&& response.order_type == type_code(order.order_type)
    &&& response.status == status_code(order.status)
    &&& response.timestamp == Some(wire_timestamp(order.timestamp))
}

/// Writes `order` into a message, with the given signs on its price and
/// on its quantities.
pub fn respond(order: &Order, negative_price: bool, negative_quantity: bool) -> (response:
    OrderResponse)
    requires
        order.price.wf(),
        order.quantity.wf(),
        order.remaining_quantity.wf(),
    ensures
        describes(response, *order, negative_price, negative_quantity),
{
    let side: i32 = match order.side {
        Side::Bid => 0,
        Side::Ask => 1,
    };
    let order_type: i32 = match order.order_type {
        OrderType::Limit => 0,
        OrderType::Market => 1,
    };
    let status: i32 = match order.status {
        OrderStatus::New => 0,
        OrderStatus::PartiallyFilled => 1,
        OrderStatus::Filled => 2,
        OrderStatus::Rejected => 3,
    };
    OrderResponse {
        id: order.id,
        price: amount_to_string(negative_price, &order.price, order.price_scale),
        quantity: amount_to_string(negative_quantity, &order.quantity, order.quantity_scale),
        remaining_quantity: amount_to_string(
            negative_quantity,
            &order.remaining_quantity,
            order.remaining_scale,
        ),
        side,
        order_type,
        status,
        timestamp: Some(timestamp_to_wire(order.timestamp)),
    }
}

/// One level of a snapshot with the way it is written: its price and its
/// total open quantity, each with the number of digits after the point
/// that it is written with at least.
#[derive(Clone, Copy, Debug, PartialEq, Eq, Structural)]
pub struct LevelRow {
    pub price: Amount,
    pub price_scale: u32,
    pub quantity: Total,
    pub quantity_scale: u32,
}

/// Whether `levels` reports `rows`, level by level.
pub open spec fn renders(levels: Seq<OrderBookLevel>, rows: Seq<LevelRow>) -> bool {
    &&& levels.len() == rows.len()
    &&& forall|i: int|
        0 <= i < rows.len() ==> (#[trigger] levels[i]).price@ == amount_text(
            false,
            rows[i].price,
            rows[i].price_scale as nat,
        ) && levels[i].quantity@ == total_text(rows[i].quantity, rows[i].quantity_scale as nat)
}

/// Writes the levels `rows` into messages.
pub fn render_levels(rows: &Vec<LevelRow>) -> (levels: Vec<OrderBookLevel>)
    requires
        forall|i: int|
            0 <= i < rows@.len() ==> (#[trigger] rows@[i]).price.wf() && rows@[i].quantity.wf(),
    ensures
        renders(levels@, rows@),
{
    let mut levels: Vec<OrderBookLevel> = Vec::new();
    let mut i: usize = 0;
    while i < rows.len()
        invariant
            i <= rows@.len(),
            forall|j: int|
                0 <= j < rows@.len() ==> (#[trigger] rows@[j]).price.wf() && rows@[j].quantity.wf(),
            renders(levels@, rows@.take(i as int)),
        decreases rows@.len() - i,
    {
        let row = rows[i];
        assert(rows@[i as int].price.wf());
        let price = amount_to_string(false, &row.price, row.price_scale);
        let quantity = total_to_string(&row.quantity, row.quantity_scale);
        let ghost before = levels@;
        levels.push(OrderBookLevel { price, quantity });
        i = i + 1;
        proof {
            let done = rows@.take(i as int);
            assert forall|j: int| 0 <= j < done.len() implies (#[trigger] levels@[j]).price@
                == amount_text(false, done[j].price, done[j].price_scale as nat)
                && levels@[j].quantity@ == total_text(done[j].quantity, done[j].quantity_scale as nat) by {
                if j < i - 1 {
                    assert(levels@[j] == before[j]);
                    assert(rows@.take(i - 1)[j] == done[j]);
                }
            }
        }
    }
    assert(rows@.take(i as int) == rows@);
    levels
}

} // verus!
