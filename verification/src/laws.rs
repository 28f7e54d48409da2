//! The laws of the book: what holds of every order stream, stated over the
//! model that the contracts of the service speak of.

use vstd::prelude::*;
use crate::admission::{add_order_result, admitted, cancellable, cancelled, outcome, rejection};
use crate::consistency::{entry_ok, first_come, uncrossed};
use crate::dto::{CreateOrderRequest, Order, OrderSide, OrderStatus, OrderType, TimeInForce};
use crate::index::{lemma_put_resting, ordered, without, worse, Resting};
use crate::matching::{
    crosses, filled_by, is_killed, is_live, opposite, settled, step, store_after, trade_of, walk,
    Staged,
};
use crate::proofs::{
    arrives, drops_any_expired, fill_of, lemma_cancel_complete, lemma_cancel_in_order,
    lemma_committed_store, lemma_fill_crosses, lemma_first_come_transfers,
    lemma_insert_first_come, lemma_settle_complete, lemma_settle_in_order,
    lemma_settle_resting, lemma_settled_record, lemma_sound_side, lemma_store_after, lemma_walk,
    lemma_walk_first_come, lemma_without_first_come, same_times, total, unchanged_but_filled,
};
use crate::service::BookView;

verus! {

/// The side of the book that an admitted order is matched against.
pub open spec fn walked_side(book: BookView, request: CreateOrderRequest) -> Seq<Resting> {
    book.index.resting(request.item_id, opposite(request.order_side))
}

/// What the walk for an admitted order has staged after the first `n`
/// entries of the side it is matched against.
pub open spec fn staged(book: BookView, request: CreateOrderRequest, id: u128, now: i64, n: int) -> Staged {
    let incoming = admitted(book, request, id, now);
    walk(book.orders.insert(id, incoming), walked_side(book, request), incoming, now, n)
}

/// Whether admitting the request drops a resting day order as expired.
pub open spec fn admission_drops_expired(book: BookView, request: CreateOrderRequest, id: u128, now: i64) -> bool {
    let incoming = admitted(book, request, id, now);
    rejection(book, request, id) is None && drops_any_expired(
        book.orders.insert(id, incoming),
        book.index,
        incoming,
        now,
    )
}

/// Whether the admitted order is a fill-or-kill order that cannot fill
/// completely.
pub open spec fn admission_kills(book: BookView, request: CreateOrderRequest, id: u128, now: i64) -> bool {
    rejection(book, request, id) is None && is_killed(
        admitted(book, request, id, now),
        staged(book, request, id, now, walked_side(book, request).len() as int).filled,
    )
}

/// What adding an order keeps of a book: a book in order stays in order;
/// it keeps every live order on the book unless matching drops an expired
/// day order; and its price levels stay first come, first served while the
/// clock does not run backwards.
pub open spec fn add_order_keeps(
    pre: BookView,
    post: BookView,
    request: CreateOrderRequest,
    id: u128,
    now: i64,
) -> bool {
    &&& pre.consistent() ==> post.consistent()
    &&& pre.consistent() && pre.complete() && !admission_drops_expired(pre, request, id, now) ==> post.complete()
    &&& pre.consistent() && pre.arrival_ordered() && pre.no_later_than(now) ==> post.arrival_ordered()
        && post.no_later_than(now)
}

/// An order that passes validation arrives as matching expects it.
proof fn lemma_admitted_arrives(book: BookView, request: CreateOrderRequest, id: u128, now: i64)
    requires
        rejection(book, request, id) is None,
    ensures
        arrives(book.orders, admitted(book, request, id, now)),
        admitted(book, request, id, now).id == id,
        admitted(book, request, id, now).item_id == request.item_id,
        admitted(book, request, id, now).order_side == request.order_side,
        admitted(book, request, id, now).order_type == request.order_type,
        admitted(book, request, id, now).time_in_force == request.time_in_force,
        admitted(book, request, id, now).quantity == request.quantity,
        request.order_type == OrderType::Limit ==> admitted(book, request, id, now).price == request.price,
{
}

/// Adding an order keeps the book in order. In a book in order every
/// order has filled between nothing and its quantity, is closed exactly
/// when it is filled, rests on the book only while it is live, and no bid
/// reaches an ask; all of that still holds when `add_order` returns,
/// whether the order was admitted or turned away.
pub proof fn law_add_order_keeps_order(
    pre: BookView,
    post: BookView,
    request: CreateOrderRequest,
    id: u128,
    now: i64,
    result: Result<Order, String>,
)
    requires
        pre.consistent(),
        add_order_result(pre, post, request, id, now, result),
    ensures
        post.consistent(),
{
    if rejection(pre, request, id) is None {
        lemma_admitted_arrives(pre, request, id, now);
        lemma_settle_in_order(pre.orders, pre.index, admitted(pre, request, id, now), now);
    }
}

/// Adding an order keeps every live order on the book, unless matching
/// drops a resting day order because its day is over: such an order stays
/// live in the store and leaves the book.
pub proof fn law_add_order_keeps_live_orders_resting(
    pre: BookView,
    post: BookView,
    request: CreateOrderRequest,
    id: u128,
    now: i64,
    result: Result<Order, String>,
)
    requires
        pre.consistent(),
        pre.complete(),
        add_order_result(pre, post, request, id, now, result),
        !admission_drops_expired(pre, request, id, now),
    ensures
        post.complete(),
{
    if rejection(pre, request, id) is None {
        lemma_admitted_arrives(pre, request, id, now);
        lemma_settle_complete(pre.orders, pre.index, admitted(pre, request, id, now), now);
    }
}

/// Cancelling an order keeps the book in order.
pub proof fn law_cancel_keeps_order(book: BookView, id: u128, now: i64)
    requires
        book.consistent(),
    ensures
        cancelled(book, id, now).consistent(),
{
    lemma_cancel_in_order(book, id, now);
}

/// Cancelling an order keeps every live order on the book: the cancelled
/// order is no longer live, and no other order leaves.
pub proof fn law_cancel_keeps_live_orders_resting(book: BookView, id: u128, now: i64)
    requires
        book.consistent(),
        book.complete(),
    ensures
        cancelled(book, id, now).complete(),
{
    lemma_cancel_complete(book, id, now);
}

/// Book membership goes with the status: in a book in order an order that
/// rests on the book is live, and it rests at the item, side and price of
/// its record.
pub proof fn law_resting_orders_are_live(book: BookView, item: u128, side: OrderSide, i: int)
    requires
        book.consistent(),
        0 <= i < book.index.resting(item, side).len(),
    ensures
        book.orders.contains_key(book.index.resting(item, side)[i].id),
        book.orders[book.index.resting(item, side)[i].id].status == OrderStatus::Open || book.orders[book.index.resting(
            item,
            side,
        )[i].id].status == OrderStatus::PartiallyFilled,
        book.orders[book.index.resting(item, side)[i].id].item_id == item,
        book.orders[book.index.resting(item, side)[i].id].order_side == side,
        book.orders[book.index.resting(item, side)[i].id].price == book.index.resting(item, side)[i].price,
{
    assert(entry_ok(book.orders, item, side, book.index.resting(item, side)[i]));
}

/// An order is on the book exactly while it is live: in a book in order
/// that holds every live order, an order of the store rests on its item
/// and side if and only if it is open or partially filled.
pub proof fn law_on_the_book_while_live(book: BookView, id: u128)
    requires
        book.consistent(),
        book.complete(),
        book.orders.contains_key(id),
    ensures
        book.index.holds(book.orders[id].item_id, book.orders[id].order_side, id) <==> is_live(
            book.orders[id].status,
        ),
{
    let item = book.orders[id].item_id;
    let side = book.orders[id].order_side;
    if book.index.holds(item, side, id) {
        let i = choose|i: int|
            0 <= i < book.index.resting(item, side).len() && #[trigger] book.index.resting(item, side)[i].id
                == id;
        assert(entry_ok(book.orders, item, side, book.index.resting(item, side)[i]));
    }
}

/// In a book in order the best price of a side is the best there is: no
/// order of the side rests at a better price than the first entry, so the
/// best bid is the highest bid and the best ask the lowest ask.
pub proof fn law_best_price_is_best(book: BookView, item: u128, side: OrderSide, i: int)
    requires
        book.consistent(),
        0 <= i < book.index.resting(item, side).len(),
    ensures
        book.index.best(item, side) is Some,
        !worse(side, book.index.best(item, side)->0, book.index.resting(item, side)[i].price),
{
    let seq = book.index.resting(item, side);
    assert(ordered(seq, side));
    if i > 0 {
        assert(!worse(side, seq[0].price, seq[i].price));
    }
}

/// A book in order is not crossed: where an item has both bids and asks,
/// the best bid lies below the best ask.
pub proof fn law_book_is_uncrossed(book: BookView, item: u128)
    requires
        book.consistent(),
        book.index.best(item, OrderSide::Buy) is Some,
        book.index.best(item, OrderSide::Sell) is Some,
    ensures
        book.index.best(item, OrderSide::Buy)->0.units < book.index.best(item, OrderSide::Sell)->0.units,
{
    let bids = book.index.resting(item, OrderSide::Buy);
    let asks = book.index.resting(item, OrderSide::Sell);
    assert(uncrossed(bids, asks));
    assert(bids[0].price.units < asks[0].price.units);
}

/// Fills conserve quantity: each committed fill adds its quantity to what
/// the resting order has filled, and the incoming order ends up with the
/// quantities of all fills together, which is never more than it asked for.
pub proof fn law_fills_conserve_quantity(book: BookView, request: CreateOrderRequest, id: u128, now: i64, k: int)
    requires
        book.consistent(),
        rejection(book, request, id) is None,
        0 <= k < outcome(book, request, id, now).fills.len(),
    ensures
        ({
            let out = outcome(book, request, id, now);
            let fill = out.fills[k];
            &&& book.orders.contains_key(fill.resting.id)
            &&& out.orders.contains_key(fill.resting.id)
            &&& fill.quantity.units > 0
            &&& out.orders[fill.resting.id].quantity_filled.units == book.orders[fill.resting.id].quantity_filled.units
                + fill.quantity.units
            &&& out.order.quantity_filled.units == total(out.fills, out.fills.len() as int)
            &&& out.order.quantity_filled.units <= request.quantity.units
        }),
{
    let incoming = admitted(book, request, id, now);
    let stored = book.orders.insert(id, incoming);
    let side = opposite(incoming.order_side);
    let bk = book.index.resting(incoming.item_id, side);
    let st = walk(stored, bk, incoming, now, bk.len() as int);
    let out = outcome(book, request, id, now);
    lemma_admitted_arrives(book, request, id, now);
    lemma_sound_side(book.orders, book.index, incoming, incoming.item_id, side);
    lemma_walk(stored, bk, incoming.item_id, incoming, now, bk.len() as int);
    lemma_store_after(stored, st.fills, st.fills.len() as int);
    assert(!is_killed(incoming, st.filled));
    let fill = st.fills[k];
    let j = choose|j: int| 0 <= j < bk.len() && fill_of(stored, now, st.fills[k], bk[j]);
    assert(entry_ok(book.orders, incoming.item_id, side, book.index.resting(incoming.item_id, side)[j]));
    assert(book.orders.contains_key(bk[j].id));
    assert(fill.resting.id != id);
}

/// Every committed fill becomes one trade, and a trade is logged for
/// nothing else: the trade log grows by exactly the fills of the outcome,
/// which are none where the request is turned away or the order is killed.
pub proof fn law_trades_are_the_committed_fills(
    pre: BookView,
    post: BookView,
    request: CreateOrderRequest,
    id: u128,
    now: i64,
    result: Result<Order, String>,
)
    requires
        add_order_result(pre, post, request, id, now, result),
    ensures
        post.trades.len() == pre.trades.len() + (if rejection(pre, request, id) is None {
            outcome(pre, request, id, now).fills.len()
        } else {
            0
        }),
        admission_kills(pre, request, id, now) ==> post.trades.len() == pre.trades.len(),
        forall|i: int| 0 <= i < pre.trades.len() ==> #[trigger] post.trades[i] == pre.trades[i],
        rejection(pre, request, id) is None ==> forall|k: int|
            0 <= k < outcome(pre, request, id, now).fills.len() ==> #[trigger] post.trades[pre.trades.len() + k]
                == trade_of(
                outcome(pre, request, id, now).fills[k],
                admitted(pre, request, id, now),
                now,
                post.trades[pre.trades.len() + k].id,
            ),
{
    if rejection(pre, request, id) is None {
        let out = outcome(pre, request, id, now);
        let base = pre.trades.len() as int;
        assert forall|i: int| 0 <= i < pre.trades.len() implies #[trigger] post.trades[i] == pre.trades[i] by {
            assert(post.trades.take(base)[i] == post.trades[i]);
        }
        assert forall|k: int| 0 <= k < out.fills.len() implies #[trigger] post.trades[base + k] == trade_of(
            out.fills[k],
            admitted(pre, request, id, now),
            now,
            post.trades[base + k].id,
        ) by {
            assert(post.trades.skip(base)[k] == post.trades[base + k]);
        }
    }
}

/// Price-time priority: an entry of the book is filled only once every
/// entry ahead of it has left the book. Entries are walked best price
/// first and, within a price, oldest first; when the walk stages a fill at
/// entry `n`, none of the entries before it is kept.
pub proof fn law_price_time_priority(book: BookView, request: CreateOrderRequest, id: u128, now: i64, n: int)
    requires
        book.consistent(),
        rejection(book, request, id) is None,
        0 <= n < walked_side(book, request).len(),
        staged(book, request, id, now, n + 1).fills.len() > staged(book, request, id, now, n).fills.len(),
    ensures
        staged(book, request, id, now, n).kept.len() == 0,
        staged(book, request, id, now, n + 1).fills.last().resting.id == walked_side(book, request)[n].id,
{
    let incoming = admitted(book, request, id, now);
    let stored = book.orders.insert(id, incoming);
    let side = opposite(incoming.order_side);
    let bk = book.index.resting(incoming.item_id, side);
    lemma_admitted_arrives(book, request, id, now);
    lemma_sound_side(book.orders, book.index, incoming, incoming.item_id, side);
    lemma_walk(stored, bk, incoming.item_id, incoming, now, n);
    let prev = walk(stored, bk, incoming, now, n);
    assert(walk(stored, bk, incoming, now, n + 1) == step(stored, incoming, now, prev, bk[n]));
    assert(entry_ok(book.orders, incoming.item_id, side, book.index.resting(incoming.item_id, side)[n]));
}

/// Whether fill `k` of the whole walk was staged at entry `j`.
pub open spec fn crosses_at(
    orders: Map<u128, Order>,
    book: Seq<Resting>,
    incoming: Order,
    now: i64,
    k: int,
    j: int,
) -> bool {
    let st = walk(orders, book, incoming, now, book.len() as int);
    &&& crosses(incoming, orders[book[j].id])
    &&& st.fills[k].price == book[j].price
    &&& st.fills[k].resting == filled_by(orders[book[j].id], st.fills[k].quantity.units as int, now)
}

/// Price improvement goes to the taker: a fill executes at the price of
/// the resting order, which for a limit order is never worse than its own
/// limit: at or below the limit of a buy, at or above the limit of a sell.
pub proof fn law_fill_at_resting_price(book: BookView, request: CreateOrderRequest, id: u128, now: i64, k: int)
    requires
        book.consistent(),
        rejection(book, request, id) is None,
        0 <= k < outcome(book, request, id, now).fills.len(),
    ensures
        ({
            let fill = outcome(book, request, id, now).fills[k];
            &&& book.orders.contains_key(fill.resting.id)
            &&& fill.price == book.orders[fill.resting.id].price
            &&& (request.order_type == OrderType::Limit && request.order_side == OrderSide::Buy
                ==> fill.price.units <= request.price.units)
            &&& (request.order_type == OrderType::Limit && request.order_side == OrderSide::Sell
                ==> fill.price.units >= request.price.units)
        }),
{
    let incoming = admitted(book, request, id, now);
    let stored = book.orders.insert(id, incoming);
    let side = opposite(incoming.order_side);
    let bk = book.index.resting(incoming.item_id, side);
    let st = walk(stored, bk, incoming, now, bk.len() as int);
    lemma_admitted_arrives(book, request, id, now);
    lemma_fill_crosses(stored, bk, incoming, now, bk.len() as int, k);
    let j = choose|j: int|
        0 <= j < bk.len() && stored.contains_key(#[trigger] bk[j].id) && crosses_at(stored, bk, incoming, now, k, j);
    assert(entry_ok(book.orders, incoming.item_id, side, book.index.resting(incoming.item_id, side)[j]));
    assert(book.orders.contains_key(bk[j].id));
    assert(stored[bk[j].id] == book.orders[bk[j].id]);
}

/// Fill-or-kill is atomic: where the order cannot fill completely, the
/// trade log and the index are as they were, every order that was in the
/// store has the record it had, and the order itself is stored cancelled
/// with nothing filled.
pub proof fn law_kill_changes_nothing(
    pre: BookView,
    post: BookView,
    request: CreateOrderRequest,
    id: u128,
    now: i64,
    result: Result<Order, String>,
)
    requires
        add_order_result(pre, post, request, id, now, result),
        admission_kills(pre, request, id, now),
    ensures
        post.trades == pre.trades,
        post.index == pre.index,
        forall|other: u128| #[trigger] pre.orders.contains_key(other) ==> post.orders.contains_key(other) && post.orders[other] == pre.orders[other],
        post.orders == pre.orders.insert(
            id,
            Order { status: OrderStatus::Cancelled, updated_at: now, ..admitted(pre, request, id, now) },
        ),
        result == Ok::<Order, String>(
            Order { status: OrderStatus::Cancelled, updated_at: now, ..admitted(pre, request, id, now) },
        ),
{
    assert(post.trades.take(pre.trades.len() as int) =~= post.trades);
    assert(post.orders =~= pre.orders.insert(
        id,
        Order { status: OrderStatus::Cancelled, updated_at: now, ..admitted(pre, request, id, now) },
    ));
}

/// An immediate-or-cancel order ends trimmed and closed: once it is
/// admitted, its quantity is what it filled and its status is closed, and
/// it does not rest on the book.
pub proof fn law_immediate_order_is_trimmed(book: BookView, request: CreateOrderRequest, id: u128, now: i64)
    requires
        rejection(book, request, id) is None,
        request.time_in_force == TimeInForce::IOC,
    ensures
        outcome(book, request, id, now).order.quantity == outcome(book, request, id, now).order.quantity_filled,
        outcome(book, request, id, now).order.status == OrderStatus::Closed,
        outcome(book, request, id, now).orders[id] == outcome(book, request, id, now).order,
        outcome(book, request, id, now).index.resting(request.item_id, request.order_side)
            == book.index.resting(request.item_id, request.order_side),
{
    let incoming = admitted(book, request, id, now);
    let bk = walked_side(book, request);
    let st = staged(book, request, id, now, bk.len() as int);
    lemma_put_resting(
        book.index,
        request.item_id,
        opposite(request.order_side),
        st.kept,
        request.item_id,
        request.order_side,
    );
}

/// Adding an order only advances the orders that are there: each keeps
/// its identity, what it asks for and its time of creation, and has filled
/// no less than before; an order that was closed or cancelled is not
/// touched at all, and one that is touched carries the time of the change.
pub proof fn law_add_order_only_advances_orders(
    pre: BookView,
    post: BookView,
    request: CreateOrderRequest,
    id: u128,
    now: i64,
    result: Result<Order, String>,
    other: u128,
)
    requires
        pre.consistent(),
        add_order_result(pre, post, request, id, now, result),
        pre.orders.contains_key(other),
    ensures
        post.orders.contains_key(other),
        unchanged_but_filled(pre.orders[other], post.orders[other]),
        !is_live(pre.orders[other].status) ==> post.orders[other] == pre.orders[other],
        post.orders[other] != pre.orders[other] ==> post.orders[other].updated_at == now,
{
    if rejection(pre, request, id) is None {
        let incoming = admitted(pre, request, id, now);
        lemma_admitted_arrives(pre, request, id, now);
        if !admission_kills(pre, request, id, now) {
            lemma_committed_store(pre.orders, pre.index, incoming, now);
            let stored = pre.orders.insert(id, incoming);
            let st = staged(pre, request, id, now, walked_side(pre, request).len() as int);
            let after = store_after(stored, st.fills, st.fills.len() as int);
            assert(after.contains_key(other));
            assert(post.orders[other] == after[other]);
        }
    }
}

/// Adding an order keeps every price level first come, first served, as
/// long as the clock does not run backwards: if no order was created
/// after `now`, then within each level the orders still stand in the order
/// in which they were created.
pub proof fn law_add_order_keeps_arrival_order(
    pre: BookView,
    post: BookView,
    request: CreateOrderRequest,
    id: u128,
    now: i64,
    result: Result<Order, String>,
)
    requires
        pre.consistent(),
        pre.arrival_ordered(),
        pre.no_later_than(now),
        add_order_result(pre, post, request, id, now, result),
    ensures
        post.arrival_ordered(),
        post.no_later_than(now),
{
    if rejection(pre, request, id) is None {
        let incoming = admitted(pre, request, id, now);
        let stored = pre.orders.insert(id, incoming);
        lemma_admitted_arrives(pre, request, id, now);
        assert forall|other: u128| #[trigger] post.orders.contains_key(other) implies post.orders[other].created_at
            <= now && (other != id ==> pre.orders.contains_key(other) && post.orders[other].created_at
            == pre.orders[other].created_at) by {
            if other != id {
                if admission_kills(pre, request, id, now) {
                    assert(pre.orders.contains_key(other));
                } else {
                    lemma_committed_store(pre.orders, pre.index, incoming, now);
                    let st = staged(pre, request, id, now, walked_side(pre, request).len() as int);
                    let after = store_after(stored, st.fills, st.fills.len() as int);
                    assert(after.contains_key(other));
                    assert(pre.orders.contains_key(other));
                    assert(post.orders[other] == after[other]);
                }
            } else {
                if !admission_kills(pre, request, id, now) {
                    let bk = walked_side(pre, request);
                    let st = staged(pre, request, id, now, bk.len() as int);
                    lemma_sound_side(pre.orders, pre.index, incoming, incoming.item_id, opposite(incoming.order_side));
                    lemma_walk(stored, bk, incoming.item_id, incoming, now, bk.len() as int);
                }
            }
        }
        assert forall|item: u128, side: OrderSide| first_come(post.orders, #[trigger] post.index.resting(item, side)) by {
            lemma_add_order_level(pre, post, request, id, now, result, item, side);
        }
    }
}

/// The entries of one item and side are first come, first served once an
/// order is admitted; the work of [`law_add_order_keeps_arrival_order`].
proof fn lemma_add_order_level(
    pre: BookView,
    post: BookView,
    request: CreateOrderRequest,
    id: u128,
    now: i64,
    result: Result<Order, String>,
    item: u128,
    side: OrderSide,
)
    requires
        pre.consistent(),
        pre.arrival_ordered(),
        pre.no_later_than(now),
        add_order_result(pre, post, request, id, now, result),
        rejection(pre, request, id) is None,
        forall|other: u128| #[trigger]
            post.orders.contains_key(other) && other != id ==> pre.orders.contains_key(other) && post.orders[other].created_at
                == pre.orders[other].created_at,
    ensures
        first_come(post.orders, post.index.resting(item, side)),
{
    let incoming = admitted(pre, request, id, now);
    let stored = pre.orders.insert(id, incoming);
    let old_seq = pre.index.resting(item, side);
    lemma_admitted_arrives(pre, request, id, now);
    assert(first_come(pre.orders, old_seq));
    // the old entries name old orders, whose times of creation are kept
    assert forall|i: int| 0 <= i < old_seq.len() implies pre.orders[#[trigger] old_seq[i].id].created_at
        == post.orders[old_seq[i].id].created_at by {
        assert(entry_ok(pre.orders, item, side, pre.index.resting(item, side)[i]));
        let other = old_seq[i].id;
        assert(pre.orders.contains_key(other));
        law_add_order_only_advances_orders(pre, post, request, id, now, result, other);
    }
    assert(same_times(pre.orders, post.orders, old_seq));
    lemma_first_come_transfers(pre.orders, post.orders, old_seq);
    if !admission_kills(pre, request, id, now) {
        let walked = opposite(incoming.order_side);
        let bk = pre.index.resting(incoming.item_id, walked);
        let st = walk(stored, bk, incoming, now, bk.len() as int);
        let done = settled(incoming, st.filled, now);
        lemma_sound_side(pre.orders, pre.index, incoming, incoming.item_id, walked);
        lemma_walk(stored, bk, incoming.item_id, incoming, now, bk.len() as int);
        lemma_settled_record(incoming, st.filled, now);
        lemma_settle_resting(stored, pre.index, incoming, now, item, side);
        if item == incoming.item_id && side == walked {
            lemma_walk_first_come(post.orders, stored, bk, incoming, now, bk.len() as int);
        } else if item == incoming.item_id && side == incoming.order_side && is_live(done.status) {
            let e_new = Resting { price: done.price, id: done.id };
            assert(post.orders[id] == done);
            assert forall|j: int| 0 <= j < old_seq.len() && old_seq[j].price == e_new.price implies post.orders[#[trigger] old_seq[j].id].created_at
                <= post.orders[e_new.id].created_at by {
                assert(entry_ok(pre.orders, item, side, pre.index.resting(item, side)[j]));
                assert(pre.orders.contains_key(old_seq[j].id));
            }
            assert(ordered(pre.index.resting(item, side), side));
            lemma_insert_first_come(post.orders, old_seq, side, e_new);
        }
    }
}

/// Cancelling an order keeps every price level first come, first served.
pub proof fn law_cancel_keeps_arrival_order(book: BookView, id: u128, now: i64)
    requires
        book.consistent(),
        book.arrival_ordered(),
    ensures
        cancelled(book, id, now).arrival_ordered(),
{
    if cancellable(book, id) {
        let order = book.orders[id];
        let after = cancelled(book, id, now);
        let seq = book.index.resting(order.item_id, order.order_side);
        let left = without(seq, order.price, id);
        assert forall|item: u128, side: OrderSide| first_come(after.orders, #[trigger] after.index.resting(item, side)) by {
            let old_seq = book.index.resting(item, side);
            assert(first_come(book.orders, old_seq));
            assert(same_times(book.orders, after.orders, old_seq));
            lemma_first_come_transfers(book.orders, after.orders, old_seq);
            lemma_put_resting(book.index, order.item_id, order.order_side, left, item, side);
            if item == order.item_id && side == order.order_side {
                lemma_without_first_come(after.orders, seq, order.price, id);
            }
        }
    }
}

} // verus!
