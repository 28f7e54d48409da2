//! What the service's operations mean, stated over its model: how a request
//! is validated and priced, and how each operation changes the store, the
//! index and the trade log.

use vstd::prelude::*;
use crate::amount::Amount;
use crate::dto::{CreateOrderRequest, Order, OrderSide, OrderStatus, OrderType, TimeInForce};
use crate::matching::{appended, is_live, opposite, settle, Outcome};
use crate::rejection::Rejection;
use crate::service::BookView;

verus! {

/// The length of a day order's day: 24 hours in microseconds.
pub const DAY_MICROS: i64 = 86_400_000_000;

/// The time a day after `now`; the last representable time where that
/// would lie beyond it.
pub open spec fn day_after(now: i64) -> i64 {
    if now + DAY_MICROS <= i64::MAX {
        (now + DAY_MICROS) as i64
    } else {
        i64::MAX
    }
}

/// When an order created at `now` expires: a day order a day later, an
/// immediate-or-cancel order at once, the others never.
pub open spec fn expiry(time_in_force: TimeInForce, now: i64) -> Option<i64> {
    match time_in_force {
        TimeInForce::DAY => Some(day_after(now)),
        TimeInForce::IOC => Some(now),
        _ => None,
    }
}

/// The price a market order is held against: the best resting price of the
/// side it trades with.
pub open spec fn reference_price(book: BookView, item_id: u128, side: OrderSide) -> Option<Amount> {
    book.index.best(item_id, opposite(side))
}

/// Whether the market has moved away from the requested `price` by more
/// than five percent of it, against the order: a buy slips when the market
/// is dearer, a sell when it is cheaper.
pub open spec fn slips(side: OrderSide, market: Amount, price: Amount) -> bool {
    let away = match side {
        OrderSide::Buy => market.units - price.units,
        OrderSide::Sell => price.units - market.units,
    };
    away > 0 && 100 * away > 5 * price.units
}

/// Why a request is turned away, if it is; the first check that fails
/// decides.
pub open spec fn rejection(book: BookView, request: CreateOrderRequest, id: u128) -> Option<Rejection> {
    if request.price.units < 0 {
        Some(Rejection::NegativePrice)
    } else if request.quantity.units <= 0 {
        Some(Rejection::NoQuantity)
    } else if request.order_type == OrderType::Market {
        match reference_price(book, request.item_id, request.order_side) {
            None => Some(Rejection::NoReferencePrice),
            Some(market) => if slips(request.order_side, market, request.price) {
                Some(Rejection::Slippage { market, price: request.price })
            } else if book.orders.contains_key(id) {
                Some(Rejection::DuplicateId)
            } else {
                None
            },
        }
    } else if book.orders.contains_key(id) {
        Some(Rejection::DuplicateId)
    } else {
        None
    }
}

/// The price an admitted order carries: a market order takes the reference
/// price, a limit order keeps its own.
pub open spec fn admitted_price(book: BookView, request: CreateOrderRequest) -> Amount {
    match request.order_type {
        OrderType::Market => match reference_price(book, request.item_id, request.order_side) {
            Some(market) => market,
            None => request.price,
        },
        OrderType::Limit => request.price,
    }
}

/// The order that admission creates for a request.
pub open spec fn created(request: CreateOrderRequest, id: u128, price: Amount, now: i64) -> Order {
    Order {
        id,
        item_id: request.item_id,
        user_id: request.user_id,
        order_side: request.order_side,
        order_type: request.order_type,
        time_in_force: request.time_in_force,
        price,
        quantity: request.quantity,
        quantity_filled: Amount { units: 0 },
        status: OrderStatus::Open,
        created_at: now,
        updated_at: now,
        expires_at: expiry(request.time_in_force, now),
    }
}

/// The order that admission creates for a request that passes validation.
pub open spec fn admitted(book: BookView, request: CreateOrderRequest, id: u128, now: i64) -> Order {
    created(request, id, admitted_price(book, request), now)
}

/// What matching the admitted order gives: the order is stored, matched
/// against the other side of its item and settled.
pub open spec fn outcome(book: BookView, request: CreateOrderRequest, id: u128, now: i64) -> Outcome {
    let incoming = admitted(book, request, id, now);
    settle(book.orders.insert(id, incoming), book.index, incoming, now)
}

/// Whether `post` and `result` are what adding an order to `pre` gives,
/// under identifier `id` and at time `now`.
///
/// A rejected request changes nothing and reports its message. An admitted
/// one is stored, matched and settled; the result is the order as matching
/// leaves it, and the trades of the committed fills are appended to the log.
pub open spec fn add_order_result(
    pre: BookView,
    post: BookView,
    request: CreateOrderRequest,
    id: u128,
    now: i64,
    result: Result<Order, String>,
) -> bool {
    match rejection(pre, request, id) {
        Some(why) => {
            &&& result matches Err(message)
            &&& message@ == why.text()
            &&& post == pre
        },
        None => {
            let out = outcome(pre, request, id, now);
            &&& result == Ok::<Order, String>(out.order)
            &&& post.orders == out.orders
            &&& post.index == out.index
            &&& appended(pre.trades, post.trades, out.fills, admitted(pre, request, id, now), now)
        },
    }
}

/// Whether an order can be cancelled: it is known and still live.
pub open spec fn cancellable(book: BookView, id: u128) -> bool {
    book.orders.contains_key(id) && is_live(book.orders[id].status)
}

/// The book after order `id` is cancelled at time `now`: the order is
/// marked and leaves the level of its price. A book without such a live
/// order stays as it is.
pub open spec fn cancelled(book: BookView, id: u128, now: i64) -> BookView {
    if cancellable(book, id) {
        let order = book.orders[id];
        BookView {
            orders: book.orders.insert(id, Order { status: OrderStatus::Cancelled, updated_at: now, ..order }),
            index: book.index.remove(order.item_id, order.order_side, order.price, id),
            trades: book.trades,
        }
    } else {
        book
    }
}

/// The book after the record of order `id` is replaced by `record`; the
/// index and the trade log are not touched.
pub open spec fn with_record(book: BookView, id: u128, record: Order) -> BookView {
    BookView { orders: book.orders.insert(id, record), index: book.index, trades: book.trades }
}

/// The book after the status of order `id` is set at time `now`; a book
/// that does not know the order stays as it is.
pub open spec fn status_set(book: BookView, id: u128, status: OrderStatus, now: i64) -> BookView {
    match lookup(book, id) {
        Some(order) => with_record(book, id, Order { status, updated_at: now, ..order }),
        None => book,
    }
}

/// The book after the quantity of order `id` is set at time `now`; a book
/// that does not know the order stays as it is.
pub open spec fn quantity_set(book: BookView, id: u128, quantity: Amount, now: i64) -> BookView {
    match lookup(book, id) {
        Some(order) => with_record(book, id, Order { quantity, updated_at: now, ..order }),
        None => book,
    }
}

/// The book after the price in the record of order `id` is set at time
/// `now`; a book that does not know the order stays as it is.
pub open spec fn price_set(book: BookView, id: u128, price: Amount, now: i64) -> BookView {
    match lookup(book, id) {
        Some(order) => with_record(book, id, Order { price, updated_at: now, ..order }),
        None => book,
    }
}

/// The record under `id`, if the store has one.
pub open spec fn lookup(book: BookView, id: u128) -> Option<Order> {
    if book.orders.contains_key(id) {
        Some(book.orders[id])
    } else {
        None
    }
}

} // verus!
