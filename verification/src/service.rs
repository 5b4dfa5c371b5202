//! The service: requests in, answers out, with the engine in between.

use crate::amount::{Amount, Total};
use crate::decimal::{decimal_parse, parse_amount, signed_amount};
use crate::engine::MatchingEngine;
use crate::model::{is_snapshot, max_scale, BookModel};
use crate::order::{Order, OrderStatus, OrderType, Side, Timestamp};
use crate::wire::{
    describes, render_levels, renders, respond, side_from_code, side_of, type_from_code, type_of,
    GetOrderBookRequest, GetOrderStatusRequest, LevelRow, OrderBookResponse, OrderRequest,
    OrderResponse, ServiceError,
};
use vstd::prelude::*;

verus! {

/// The current time.
///
/// Reads the clock with `std::time::SystemTime::now`, turns the reading
/// into a `chrono::DateTime<Utc>`, and calls `timestamp` and
/// `timestamp_subsec_nanos` on it.  Nothing is claimed of the result.  The
/// conversion takes readings before 1970 as well; it stops the program
/// only on a reading beyond the years that chrono can hold.
#[verifier::external_body]
fn current_time() -> (t: Timestamp) {
    let now = chrono::DateTime::<chrono::Utc>::from(std::time::SystemTime::now());
    Timestamp { seconds: now.timestamp(), nanos: now.timestamp_subsec_nanos() }
}

/// The price that a request carries: the sign, the magnitude and the scale
/// of its price text.  A limit order needs a price, so for it text that is
/// no decimal number is an error.  A market order has no use for one, so
/// for it text that is no decimal number, or one below zero, counts as zero.
pub open spec fn requested_price(request: OrderRequest) -> Option<(bool, Amount, u32)> {
    match decimal_parse(request.price@) {
        Some(price) => if type_of(request.order_type) == OrderType::Market && signed_amount(
            price,
        ).0 {
            Some((false, Amount { whole: 0, frac: 0 }, 0u32))
        } else {
            Some(signed_amount(price))
        },
        None => if type_of(request.order_type) == OrderType::Market {
            Some((false, Amount { whole: 0, frac: 0 }, 0u32))
        } else {
            None
        },
    }
}

/// Whether a request cannot be read: the price of a limit order or the
/// quantity is no decimal number.
pub open spec fn no_decimal(request: OrderRequest) -> bool {
    ||| type_of(request.order_type) == OrderType::Limit && decimal_parse(request.price@) is None
    ||| decimal_parse(request.quantity@) is None
}

/// What a request to place an order asks for, at the instant `now`: the
/// order, and the signs of its price and of its quantity; or the error
/// where the price of a limit order or the quantity is no decimal number.
pub open spec fn requested(request: OrderRequest, now: Timestamp) -> Result<
    (Order, bool, bool),
    ServiceError,
> {
    match requested_price(request) {
        None => Err(ServiceError::InvalidPrice),
        Some(price) => match decimal_parse(request.quantity@) {
            None => Err(ServiceError::InvalidQuantity),
            Some(quantity) => Ok(
                (
                    Order {
                        id: request.id,
                        side: side_of(request.side),
                        order_type: type_of(request.order_type),
                        price: price.1,
                        quantity: signed_amount(quantity).1,
                        remaining_quantity: signed_amount(quantity).1,
                        status: OrderStatus::New,
                        timestamp: now,
                        price_scale: price.2,
                        quantity_scale: signed_amount(quantity).2,
                        remaining_scale: signed_amount(quantity).2,
                    },
                    price.0,
                    signed_amount(quantity).0,
                ),
            ),
        },
    }
}

/// What placing a request at the instant `now` comes to: the state
/// afterwards, and the order to report with the signs of its numbers.  A
/// request with a number below zero is rejected without reaching the
/// engine; any other goes to the engine as an order.
pub open spec fn outcome(before: BookModel, request: OrderRequest, now: Timestamp) -> (
    BookModel,
    Result<(Order, bool, bool), ServiceError>,
) {
    match requested(request, now) {
        Err(e) => (before, Err(e)),
        Ok((order, negative_price, negative_quantity)) => if negative_price || negative_quantity {
            (before, Ok((order.rejected(), negative_price, negative_quantity)))
        } else {
            (before.place(order).0, Ok((before.place(order).1, false, false)))
        },
    }
}

/// Whether `after` and `answer` are what placing `request` at the instant
/// `now` leaves and returns.
pub open spec fn placed(
    before: BookModel,
    request: OrderRequest,
    now: Timestamp,
    after: BookModel,
    answer: Result<OrderResponse, ServiceError>,
) -> bool {
    &&& after == outcome(before, request, now).0
    &&& match outcome(before, request, now).1 {
        Err(e) => answer == Err::<OrderResponse, ServiceError>(e),
        Ok((order, negative_price, negative_quantity)) => answer matches Ok(response)
            && describes(response, order, negative_price, negative_quantity),
    }
}

/// The row of a snapshot with the way it is written: the price with the
/// digits after the point of the earliest order of its level, the total
/// with the most digits among the open parts of the orders of the level.
pub open spec fn row_of(state: BookModel, side: Side, row: (Amount, Total)) -> LevelRow {
    LevelRow {
        price: row.0,
        price_scale: state.orders[state.levels(side)[row.0][0]].price_scale,
        quantity: row.1,
        quantity_scale: max_scale(state.levels(side)[row.0], state.orders),
    }
}

/// Whether `response` reports the book of `state` to the given depth,
/// where `bids` and `asks` are the snapshots of its two sides.
pub open spec fn book_reported(
    state: BookModel,
    depth: u32,
    bids: Seq<(Amount, Total)>,
    asks: Seq<(Amount, Total)>,
    response: OrderBookResponse,
) -> bool {
    &&& is_snapshot(bids, state.bids, state.orders, Side::Bid, depth as int)
    &&& is_snapshot(asks, state.asks, state.orders, Side::Ask, depth as int)
    &&& renders(response.bids@, Seq::new(bids.len(), |i: int| row_of(state, Side::Bid, bids[i])))
    &&& renders(response.asks@, Seq::new(asks.len(), |i: int| row_of(state, Side::Ask, asks[i])))
}

/// The service around one matching engine.
pub struct OrderBookService {
    engine: MatchingEngine,
}

impl View for OrderBookService {
    type V = BookModel;

    closed spec fn view(&self) -> BookModel {
        self.engine@
    }
}

impl OrderBookService {
    /// The engine of the service is in order.
    pub closed spec fn wf(&self) -> bool {
        self.engine.wf()
    }

    /// A well-formed service is in a well-formed state, whose book misses
    /// no order.
    pub proof fn lemma_wf(&self)
        requires
            self.wf(),
        ensures
            self@.wf(),
            self@.complete(),
    {
        self.engine.lemma_wf();
    }

    /// A service around `engine`.
    pub fn new(engine: MatchingEngine) -> (r: OrderBookService)
        requires
            engine.wf(),
        ensures
            r.wf(),
            r@ == engine@,
    {
        OrderBookService { engine }
    }

    /// Places the order that `request` asks for, stamped with the instant
    /// `now`, and reports it as it stands afterwards.  The call fails only
    /// where the price of a limit order or the quantity is no decimal
    /// number, and then nothing changes.
    pub fn place_order_at(&mut self, request: &OrderRequest, now: Timestamp) -> (r: Result<
        OrderResponse,
        ServiceError,
    >)
        requires
            old(self).wf(),
        ensures
            final(self).wf(),
            placed(old(self)@, *request, now, final(self)@, r),
            r is Err <==> no_decimal(*request),
            r is Err ==> final(self)@ == old(self)@,
    {
        let order_type = type_from_code(request.order_type);
        let market = match order_type {
            OrderType::Market => true,
            OrderType::Limit => false,
        };
        let price = match parse_amount(request.price.as_str()) {
            Some(price) => if market && price.0 {
                (false, Amount::zero(), 0u32)
            } else {
                price
            },
            None => {
                if !market {
                    return Err(ServiceError::InvalidPrice);
                }
                (false, Amount::zero(), 0u32)
            },
        };
        let quantity = match parse_amount(request.quantity.as_str()) {
            Some(quantity) => quantity,
            None => {
                return Err(ServiceError::InvalidQuantity);
            },
        };
        let order = Order::new(
            request.id,
            price.1,
            quantity.1,
            side_from_code(request.side),
            order_type,
            now,
        ).with_scales(price.2, quantity.2);
        if price.0 || quantity.0 {
            let mut rejected = order;
            rejected.status = OrderStatus::Rejected;
            return Ok(respond(&rejected, price.0, quantity.0));
        }
        proof {
            self.engine.lemma_wf();
            crate::laws::law_recorded(self.engine@, order);
        }
        let result = self.engine.place_order(order);
        Ok(respond(&result, false, false))
    }

    /// Places the order that `request` asks for, stamped with the current
    /// time, and reports it as it stands afterwards.
    pub fn place_order(&mut self, request: &OrderRequest) -> (r: Result<OrderResponse, ServiceError>)
        requires
            old(self).wf(),
        ensures
            final(self).wf(),
            exists|now: Timestamp| placed(old(self)@, *request, now, final(self)@, r),
            r is Err <==> no_decimal(*request),
            r is Err ==> final(self)@ == old(self)@,
    {
        let now = current_time();
        self.place_order_at(request, now)
    }

    /// The rows of one side's snapshot with the way they are written.
    fn scaled_rows(&self, side: Side, rows: &Vec<(Amount, Total)>, Ghost(depth): Ghost<int>) -> (r:
        Vec<LevelRow>)
        requires
            self.wf(),
            is_snapshot(rows@, self@.levels(side), self@.orders, side, depth),
        ensures
            r@ == Seq::new(rows@.len(), |i: int| row_of(self@, side, rows@[i])),
            forall|i: int| 0 <= i < r@.len() ==> (#[trigger] r@[i]).price.wf() && r@[i].quantity.wf(),
    {
        let mut out: Vec<LevelRow> = Vec::new();
        let mut i: usize = 0;
        proof {
            self.engine.lemma_wf();
        }
        while i < rows.len()
            invariant
                i <= rows@.len(),
                self.wf(),
                self@.wf(),
                is_snapshot(rows@, self@.levels(side), self@.orders, side, depth),
                out@ =~= Seq::new(i as nat, |j: int| row_of(self@, side, rows@[j])),
                forall|j: int|
                    0 <= j < out@.len() ==> (#[trigger] out@[j]).price.wf() && out@[j].quantity.wf(),
            decreases rows@.len() - i,
        {
            let row = rows[i];
            proof {
                let listed = Seq::new(rows@.len(), |j: int| rows@[j].0);
                assert(self@.levels(side).dom().contains(listed[i as int]));
                assert(self@.levels(side).contains_key(row.0));
                assert(rows@[i as int].1.wf());
            }
            let scales = self.engine.level_scales(side, &row.0).unwrap();
            out.push(
                LevelRow {
                    price: row.0,
                    price_scale: scales.0,
                    quantity: row.1,
                    quantity_scale: scales.1,
                },
            );
            i = i + 1;
        }
        out
    }

    /// Reports the book to the depth that `request` asks for.
    pub fn get_order_book(&self, request: &GetOrderBookRequest) -> (r: Result<
        OrderBookResponse,
        ServiceError,
    >)
        requires
            self.wf(),
        ensures
            r is Ok,
            exists|bids: Seq<(Amount, Total)>, asks: Seq<(Amount, Total)>|
                book_reported(self@, request.depth, bids, asks, r->Ok_0),
    {
        let rows = self.engine.get_order_book(request.depth as usize);
        let bid_rows = self.scaled_rows(Side::Bid, &rows.0, Ghost(request.depth as int));
        let ask_rows = self.scaled_rows(Side::Ask, &rows.1, Ghost(request.depth as int));
        let ghost bids = rows.0@;
        let ghost asks = rows.1@;
        let r = Ok(
            OrderBookResponse { bids: render_levels(&bid_rows), asks: render_levels(&ask_rows) },
        );
        assert(book_reported(self@, request.depth, bids, asks, r->Ok_0));
        r
    }

    /// Reports the order that `request` names as it stands, or that no
    /// such order was accepted.
    pub fn get_order_status(&self, request: &GetOrderStatusRequest) -> (r: Result<
        OrderResponse,
        ServiceError,
    >)
        requires
            self.wf(),
        ensures
            r is Ok <==> self@.orders.contains_key(request.order_id),
            match r {
                Ok(response) => describes(response, self@.orders[request.order_id], false, false),
                Err(e) => e == ServiceError::NotFound,
            },
    {
        match self.engine.get_order_status(request.order_id) {
            None => Err(ServiceError::NotFound),
            Some(order) => {
                proof {
                    self.engine.lemma_wf();
                }
                Ok(respond(&order, false, false))
            },
        }
    }
}

} // verus!
