//! What matching an incoming order means, stated over the model of the
//! order store and of the price-level index.
//!
//! Matching walks the opposite side of the book in priority order and only
//! stages what it finds: the fills, and the entries that would stay behind.
//! Settling then either commits the staged result or, for a fill-or-kill
//! order that cannot fill completely, discards it.

use vstd::prelude::*;
use crate::amount::Amount;
use crate::dto::{Order, OrderSide, OrderStatus, OrderType, TimeInForce, Trade};
use crate::index::{IndexView, Resting};

verus! {

/// The side an order trades against.
pub open spec fn opposite(side: OrderSide) -> OrderSide {
    match side {
        OrderSide::Buy => OrderSide::Sell,
        OrderSide::Sell => OrderSide::Buy,
    }
}

/// Whether an incoming order may trade with a resting one: a market order
/// always, a limit buy at or above the resting price, a limit sell at or
/// below it.
pub open spec fn crosses(incoming: Order, resting: Order) -> bool {
    match incoming.order_type {
        OrderType::Market => true,
        OrderType::Limit => match incoming.order_side {
            OrderSide::Buy => incoming.price.units >= resting.price.units,
            OrderSide::Sell => incoming.price.units <= resting.price.units,
        },
    }
}

/// Whether a day order has outlived its day at time `now`.
pub open spec fn expired(order: Order, now: i64) -> bool {
    order.time_in_force == TimeInForce::DAY && match order.expires_at {
        Some(at) => at < now,
        None => false,
    }
}

/// The quantity of an order that is not filled yet.
pub open spec fn available(order: Order) -> int {
    order.quantity.units - order.quantity_filled.units
}

/// Whether an order is live: open or partially filled.
pub open spec fn is_live(status: OrderStatus) -> bool {
    status == OrderStatus::Open || status == OrderStatus::PartiallyFilled
}

/// An order after `quantity` more units of it are filled at time `now`: it
/// is closed once nothing is left of it, partially filled before.
pub open spec fn filled_by(order: Order, quantity: int, now: i64) -> Order {
    let filled = order.quantity_filled.units + quantity;
    Order {
        quantity_filled: Amount { units: filled as i64 },
        status: if filled >= order.quantity.units {
            OrderStatus::Closed
        } else {
            OrderStatus::PartiallyFilled
        },
        updated_at: now,
        ..order
    }
}

/// A staged trade: the price and quantity it executes at, and the record of
/// the resting order as it will be once the fill is applied.
#[derive(Debug, Clone, Copy, PartialEq, Eq)]
pub struct Fill {
    pub price: Amount,
    pub quantity: Amount,
    pub resting: Order,
}

/// What a walk has staged so far.
pub struct Staged {
    /// The fills, in the order in which they were staged.
    pub fills: Seq<Fill>,
    /// The walked entries that stay on the book if the fills are committed.
    pub kept: Seq<Resting>,
    /// The quantity staged for the incoming order.
    pub filled: int,
    /// Whether the walk met a price that does not cross.
    pub halted: bool,
}

/// One step of the walk: what visiting entry `e` adds to what is staged.
///
/// Nothing more is matched once a price failed to cross or the incoming
/// order is complete. An entry without a record is passed over. An expired
/// day order leaves the book. A price that does not cross halts the walk.
/// A resting order with nothing available is passed over. Otherwise the
/// smaller of the two remainders is filled, at the entry's price, and the
/// entry leaves the book if that closes the resting order.
pub open spec fn step(
    orders: Map<u128, Order>,
    incoming: Order,
    now: i64,
    st: Staged,
    e: Resting,
) -> Staged {
    if st.halted || st.filled >= incoming.quantity.units {
        Staged { kept: st.kept.push(e), ..st }
    } else if !orders.contains_key(e.id) {
        Staged { kept: st.kept.push(e), ..st }
    } else {
        let resting = orders[e.id];
        if expired(resting, now) {
            st
        } else if !crosses(incoming, resting) {
            Staged { kept: st.kept.push(e), halted: true, ..st }
        } else if available(resting) <= 0 {
            Staged { kept: st.kept.push(e), ..st }
        } else {
            let left = incoming.quantity.units - st.filled;
            let quantity = if available(resting) <= left { available(resting) } else { left };
            let after = filled_by(resting, quantity, now);
            Staged {
                fills: st.fills.push(
                    Fill { price: e.price, quantity: Amount { units: quantity as i64 }, resting: after },
                ),
                kept: if after.status == OrderStatus::Closed { st.kept } else { st.kept.push(e) },
                filled: st.filled + quantity,
                halted: false,
            }
        }
    }
}

/// What is staged after the first `n` entries of `book` are visited.
pub open spec fn walk(
    orders: Map<u128, Order>,
    book: Seq<Resting>,
    incoming: Order,
    now: i64,
    n: int,
) -> Staged
    decreases n,
{
    if n <= 0 {
        Staged { fills: Seq::empty(), kept: Seq::empty(), filled: 0, halted: false }
    } else {
        step(orders, incoming, now, walk(orders, book, incoming, now, n - 1), book[n - 1])
    }
}

/// The store after the first `n` staged fills are applied to it.
pub open spec fn store_after(orders: Map<u128, Order>, fills: Seq<Fill>, n: int) -> Map<u128, Order>
    decreases n,
{
    if n <= 0 {
        orders
    } else {
        store_after(orders, fills, n - 1).insert(fills[n - 1].resting.id, fills[n - 1].resting)
    }
}

/// The incoming order once `filled` units were committed for it: an
/// immediate-or-cancel order is trimmed to what it filled and closed.
pub open spec fn settled(incoming: Order, filled: int, now: i64) -> Order {
    let matched = if filled > 0 {
        filled_by(incoming, filled, now)
    } else {
        incoming
    };
    if incoming.time_in_force == TimeInForce::IOC {
        Order {
            quantity: matched.quantity_filled,
            status: OrderStatus::Closed,
            updated_at: now,
            ..matched
        }
    } else {
        matched
    }
}

/// Whether the staged result of a fill-or-kill order has to be discarded.
pub open spec fn is_killed(incoming: Order, filled: int) -> bool {
    incoming.time_in_force == TimeInForce::FOK && filled < incoming.quantity.units
}

/// The result of matching: the store and the index afterwards, the fills
/// that were committed, and the incoming order as it ends up.
pub struct Outcome {
    pub orders: Map<u128, Order>,
    pub index: IndexView,
    pub fills: Seq<Fill>,
    pub order: Order,
}

/// Matches `incoming` against the opposite side of its item at time `now`.
///
/// A fill-or-kill order that cannot fill completely is cancelled and
/// nothing else changes. Otherwise the staged fills are applied to the
/// resting orders, the opposite side keeps the entries that stay, and an
/// incoming order that is still live afterwards rests on its own side.
pub open spec fn settle(
    orders: Map<u128, Order>,
    index: IndexView,
    incoming: Order,
    now: i64,
) -> Outcome {
    let side = opposite(incoming.order_side);
    let book = index.resting(incoming.item_id, side);
    let st = walk(orders, book, incoming, now, book.len() as int);
    if is_killed(incoming, st.filled) {
        let killed = Order { status: OrderStatus::Cancelled, updated_at: now, ..incoming };
        Outcome { orders: orders.insert(incoming.id, killed), index, fills: Seq::empty(), order: killed }
    } else {
        let done = settled(incoming, st.filled, now);
        let swept = index.put(incoming.item_id, side, st.kept);
        Outcome {
            orders: store_after(orders, st.fills, st.fills.len() as int).insert(incoming.id, done),
            index: if is_live(done.status) {
                swept.insert(done.item_id, done.order_side, done.price, done.id)
            } else {
                swept
            },
            fills: st.fills,
            order: done,
        }
    }
}

/// The trade that a fill produces for `incoming`, under identifier `id`: it
/// executes at the resting order's price.
pub open spec fn trade_of(fill: Fill, incoming: Order, now: i64, id: u128) -> Trade {
    Trade {
        id,
        buy_order_id: if incoming.order_side == OrderSide::Buy { incoming.id } else { fill.resting.id },
        sell_order_id: if incoming.order_side == OrderSide::Sell { incoming.id } else { fill.resting.id },
        item_id: incoming.item_id,
        quantity: fill.quantity,
        price: fill.price,
        timestamp: now,
    }
}

/// Whether `trades` are the trades of `fills`, one per fill and in the same
/// order, whatever their identifiers.
pub open spec fn trades_of(trades: Seq<Trade>, fills: Seq<Fill>, incoming: Order, now: i64) -> bool {
    &&& trades.len() == fills.len()
    &&& forall|i: int| 0 <= i < fills.len() ==> #[trigger] trades[i] == trade_of(fills[i], incoming, now, trades[i].id)
}

/// Whether the trade log `after` is the log `before` with the trades of
/// `fills` appended.
pub open spec fn appended(
    before: Seq<Trade>,
    after: Seq<Trade>,
    fills: Seq<Fill>,
    incoming: Order,
    now: i64,
) -> bool {
    &&& after.len() == before.len() + fills.len()
    &&& after.take(before.len() as int) == before
    &&& trades_of(after.skip(before.len() as int), fills, incoming, now)
}

} // verus!
