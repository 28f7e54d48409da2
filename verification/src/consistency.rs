//! What it means for a book to be in order: the invariants that admitting
//! and cancelling orders keep.

use vstd::prelude::*;
use crate::dto::{Order, OrderSide, OrderStatus};
use crate::index::{ordered, IndexView, Resting};
use crate::matching::is_live;
use crate::service::BookView;

verus! {

/// Whether a record is sound: the filled quantity lies between zero and the
/// quantity, an order is closed exactly when all of it is filled, an open
/// order has nothing filled and a partially filled one has something.
pub open spec fn record_ok(order: Order) -> bool {
    &&& 0 <= order.quantity_filled.units <= order.quantity.units
    &&& (order.status == OrderStatus::Closed <==> order.quantity_filled.units == order.quantity.units)
    &&& (order.status == OrderStatus::Open ==> order.quantity_filled.units == 0)
    &&& (order.status == OrderStatus::PartiallyFilled ==> order.quantity_filled.units > 0)
}

/// Whether an entry of the index stands for a live order of the store that
/// belongs where the entry is: same item, same side, same price.
pub open spec fn entry_ok(orders: Map<u128, Order>, item: u128, side: OrderSide, e: Resting) -> bool {
    &&& orders.contains_key(e.id)
    &&& orders[e.id].item_id == item
    &&& orders[e.id].order_side == side
    &&& orders[e.id].price == e.price
    &&& is_live(orders[e.id].status)
}

/// Whether no identifier occurs twice among the entries.
pub open spec fn distinct(seq: Seq<Resting>) -> bool {
    forall|i: int, j: int| 0 <= i < j < seq.len() ==> #[trigger] seq[i].id != #[trigger] seq[j].id
}

/// Whether no bid reaches an ask: every resting buy price lies below every
/// resting sell price.
pub open spec fn uncrossed(bids: Seq<Resting>, asks: Seq<Resting>) -> bool {
    forall|i: int, j: int|
        0 <= i < bids.len() && 0 <= j < asks.len() ==> #[trigger] bids[i].price.units < #[trigger] asks[j].price.units
}

/// Whether the entries of one price are in the order in which their orders
/// were created: within a price level the older order comes first.
pub open spec fn first_come(orders: Map<u128, Order>, seq: Seq<Resting>) -> bool {
    forall|i: int, j: int|
        0 <= i < j < seq.len() && seq[i].price == seq[j].price ==> orders[#[trigger] seq[i].id].created_at
            <= orders[#[trigger] seq[j].id].created_at
}

/// Whether a store and an index are in order together.
///
/// Every record is sound and stored under its own identifier. Every entry
/// of the index stands for a live order at its item, side and price. The
/// entries of each item and side are in price priority and name no order
/// twice. No item's bids reach its asks.
pub open spec fn in_order(orders: Map<u128, Order>, index: IndexView) -> bool {
    &&& forall|id: u128| #[trigger] orders.contains_key(id) ==> orders[id].id == id && record_ok(orders[id])
    &&& forall|item: u128, side: OrderSide, i: int|
        0 <= i < index.resting(item, side).len() ==> entry_ok(
            orders,
            item,
            side,
            #[trigger] index.resting(item, side)[i],
        )
    &&& forall|item: u128, side: OrderSide|
        ordered(#[trigger] index.resting(item, side), side) && distinct(index.resting(item, side))
    &&& forall|item: u128| #[trigger]
        uncrossed(index.resting(item, OrderSide::Buy), index.resting(item, OrderSide::Sell))
}

/// Whether every live order of the store rests in the index, at the item
/// and side of its record.
pub open spec fn all_resting(orders: Map<u128, Order>, index: IndexView) -> bool {
    forall|id: u128| #[trigger]
        orders.contains_key(id) && is_live(orders[id].status) ==> index.holds(
            orders[id].item_id,
            orders[id].order_side,
            id,
        )
}

impl BookView {
    /// Whether the book is in order: its records are sound, its index
    /// names live orders where they belong, in priority and once each, and
    /// no bid reaches an ask.
    pub open spec fn consistent(self) -> bool {
        in_order(self.orders, self.index)
    }

    /// Whether every live order rests on the book.
    pub open spec fn complete(self) -> bool {
        all_resting(self.orders, self.index)
    }

    /// Whether every price level is first come, first served: its entries
    /// are in the order in which their orders were created.
    pub open spec fn arrival_ordered(self) -> bool {
        forall|item: u128, side: OrderSide| first_come(self.orders, #[trigger] self.index.resting(item, side))
    }

    /// Whether no order of the store was created after `now`.
    pub open spec fn no_later_than(self, now: i64) -> bool {
        forall|id: u128| #[trigger] self.orders.contains_key(id) ==> self.orders[id].created_at <= now
    }
}

} // verus!
