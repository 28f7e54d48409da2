//! The proofs behind the laws of the book: what a walk stages on a sound
//! side, what a committed walk leaves in the store and in the index, and
//! that settling and cancelling keep both in order.

use vstd::prelude::*;
use crate::admission::{cancellable, cancelled};
use crate::amount::Amount;
use crate::consistency::{
    all_resting, distinct, entry_ok, first_come, in_order, record_ok, uncrossed,
};
use crate::dto::{Order, OrderSide, OrderStatus, OrderType, TimeInForce};
use crate::index::{
    drawn, is_entry, landing, lemma_insert_ordered, lemma_landing, lemma_push_is_drawn,
    lemma_push_ordered, lemma_put_resting, ordered, without, worse, IndexView, Resting,
};
use crate::service::BookView;
use crate::matching::{
    available, crosses, expired, filled_by, is_killed, is_live, opposite, settle, settled, step,
    store_after, walk, Fill, Staged,
};

verus! {

/// Inserting an entry under an identifier that is not among the entries
/// keeps the identifiers apart.
pub proof fn lemma_insert_distinct(seq: Seq<Resting>, p: int, e: Resting)
    requires
        distinct(seq),
        0 <= p <= seq.len(),
        forall|j: int| 0 <= j < seq.len() ==> #[trigger] seq[j].id != e.id,
    ensures
        distinct(seq.insert(p, e)),
{
    let grown = seq.insert(p, e);
    assert forall|i: int, j: int| 0 <= i < j < grown.len() implies #[trigger] grown[i].id
        != #[trigger] grown[j].id by {
        let a = if i < p { i } else { i - 1 };
        let b = if j < p { j } else { j - 1 };
        if i == p {
            assert(grown[j] == seq[b]);
        } else if j == p {
            assert(grown[i] == seq[a]);
        } else {
            assert(grown[i] == seq[a] && grown[j] == seq[b]);
        }
    }
}

/// A sequence that grows by the next entry of the one it is drawn from
/// stays in price priority and keeps its identifiers apart.
pub proof fn lemma_push_drawn(sub: Seq<Resting>, seq: Seq<Resting>, n: int, side: OrderSide)
    requires
        0 <= n < seq.len(),
        drawn(sub, seq, n),
        ordered(seq, side),
        distinct(seq),
        ordered(sub, side),
        distinct(sub),
    ensures
        drawn(sub.push(seq[n]), seq, n + 1),
        ordered(sub.push(seq[n]), side),
        distinct(sub.push(seq[n])),
        drawn(sub, seq, n + 1),
{
    lemma_push_ordered(sub, seq, n, side);
    let grown = sub.push(seq[n]);
    assert forall|i: int, j: int| 0 <= i < j < grown.len() implies #[trigger] grown[i].id
        != #[trigger] grown[j].id by {
        if j < sub.len() {
            assert(grown[i] == sub[i] && grown[j] == sub[j]);
        } else {
            let k = choose|k: int| 0 <= k < n && k < seq.len() && seq[k] == sub[i];
            assert(grown[i] == seq[k] && grown[j] == seq[n]);
        }
    }
}

/// Whether `book` is one side of a book in order, as matching meets it:
/// its entries stand for sound, live orders of the item and side, stored
/// under their own identifiers, in price priority and without repeats.
pub open spec fn sound_side(orders: Map<u128, Order>, book: Seq<Resting>, item: u128, side: OrderSide) -> bool {
    &&& forall|j: int|
        0 <= j < book.len() ==> {
            &&& entry_ok(orders, item, side, #[trigger] book[j])
            &&& record_ok(orders[book[j].id])
            &&& orders[book[j].id].id == book[j].id
        }
    &&& ordered(book, side)
    &&& distinct(book)
}

/// Whether a resting price is out of reach for a limit order: above the
/// limit of a buy, below the limit of a sell. No price is out of reach for
/// a market order.
pub open spec fn shy(incoming: Order, price: Amount) -> bool {
    incoming.order_type == OrderType::Limit && worse(opposite(incoming.order_side), price, incoming.price)
}

/// Whether fill `f` is what matching stages at entry `e`: it executes at
/// the entry's price, takes no more than the resting order has available,
/// and carries the resting order's record with the fill applied.
pub open spec fn fill_of(orders: Map<u128, Order>, now: i64, f: Fill, e: Resting) -> bool {
    &&& f.resting.id == e.id
    &&& f.price == e.price
    &&& 0 < f.quantity.units <= available(orders[e.id])
    &&& f.resting == filled_by(orders[e.id], f.quantity.units as int, now)
}

/// The quantity of the first `n` fills together.
pub open spec fn total(fills: Seq<Fill>, n: int) -> int
    decreases n,
{
    if n <= 0 {
        0
    } else {
        total(fills, n - 1) + fills[n - 1].quantity.units
    }
}

/// What holds of everything a walk stages on a sound side.
pub open spec fn staged_ok(
    orders: Map<u128, Order>,
    book: Seq<Resting>,
    side: OrderSide,
    incoming: Order,
    now: i64,
    n: int,
    st: Staged,
) -> bool {
    &&& 0 <= st.filled <= incoming.quantity.units
    &&& st.filled == total(st.fills, st.fills.len() as int)
    &&& drawn(st.kept, book, n)
    &&& ordered(st.kept, side)
    &&& distinct(st.kept)
    &&& forall|k: int|
        0 <= k < st.fills.len() ==> exists|j: int|
            0 <= j < n && fill_of(orders, now, #[trigger] st.fills[k], book[j])
    &&& forall|k: int, l: int|
        0 <= k < l < st.fills.len() ==> #[trigger] st.fills[k].resting.id != #[trigger] st.fills[l].resting.id
    &&& forall|a: int, k: int|
        0 <= a < st.kept.len() && 0 <= k < st.fills.len() && #[trigger] st.kept[a].id
            == #[trigger] st.fills[k].resting.id ==> st.fills[k].resting.status != OrderStatus::Closed
    &&& (st.filled < incoming.quantity.units ==> forall|a: int|
        0 <= a < st.kept.len() ==> shy(incoming, #[trigger] st.kept[a].price))
    &&& (st.halted ==> exists|j: int| 0 <= j < n && shy(incoming, #[trigger] book[j].price))
    &&& (!st.halted && st.filled < incoming.quantity.units ==> st.kept.len() == 0)
}

/// Everything a walk stages on a sound side is sound: the fills stay within
/// what the orders have, the entries that stay are in order, and while the
/// incoming order is neither complete nor halted nothing stays behind.
pub proof fn lemma_walk(
    orders: Map<u128, Order>,
    book: Seq<Resting>,
    item: u128,
    incoming: Order,
    now: i64,
    n: int,
)
    requires
        sound_side(orders, book, item, opposite(incoming.order_side)),
        incoming.quantity.units > 0,
        0 <= n <= book.len(),
    ensures
        staged_ok(
            orders,
            book,
            opposite(incoming.order_side),
            incoming,
            now,
            n,
            walk(orders, book, incoming, now, n),
        ),
    decreases n,
{
    let side = opposite(incoming.order_side);
    if n > 0 {
        lemma_walk(orders, book, item, incoming, now, n - 1);
        let prev = walk(orders, book, incoming, now, n - 1);
        let e = book[n - 1];
        let st = walk(orders, book, incoming, now, n);
        assert(st == step(orders, incoming, now, prev, e));
        assert(entry_ok(orders, item, side, e));
        let resting = orders[e.id];
        lemma_push_drawn(prev.kept, book, n - 1, side);
        // every earlier fill belongs to an earlier entry, so to another order
        assert forall|k: int| 0 <= k < prev.fills.len() implies #[trigger] prev.fills[k].resting.id != e.id
            && exists|j: int| 0 <= j < n && fill_of(orders, now, prev.fills[k], book[j]) by {
            let j = choose|j: int| 0 <= j < n - 1 && fill_of(orders, now, prev.fills[k], book[j]);
            assert(fill_of(orders, now, prev.fills[k], book[j]));
            assert(book[j].id != book[n - 1].id);
        }
        // every entry kept so far is an earlier entry
        assert forall|a: int| 0 <= a < prev.kept.len() implies #[trigger] prev.kept[a].id != e.id by {
            let j = choose|j: int| 0 <= j < n - 1 && j < book.len() && book[j] == prev.kept[a];
            assert(book[j].id != book[n - 1].id);
        }
        if prev.halted {
            let j = choose|j: int| 0 <= j < n - 1 && shy(incoming, #[trigger] book[j].price);
            assert(!worse(side, book[j].price, book[n - 1].price));
            assert(shy(incoming, e.price));
            assert(shy(incoming, book[j].price));
        }
        if prev.halted || prev.filled >= incoming.quantity.units {
            assert(st.kept == prev.kept.push(e));
            assert(st.fills == prev.fills);
        } else if expired(resting, now) {
            assert(st == prev);
        } else if !crosses(incoming, resting) {
            assert(shy(incoming, book[n - 1].price));
            assert(st.kept == prev.kept.push(e));
        } else if available(resting) <= 0 {
            assert(false);
        } else {
            let left = incoming.quantity.units - prev.filled;
            let quantity = if available(resting) <= left { available(resting) } else { left };
            let after = filled_by(resting, quantity, now);
            let f = Fill { price: e.price, quantity: Amount { units: quantity as i64 }, resting: after };
            assert(st.fills == prev.fills.push(f));
            assert(fill_of(orders, now, f, book[n - 1]));
            assert(st.fills.drop_last() == prev.fills);
            assert(total(st.fills, st.fills.len() as int) == total(st.fills, prev.fills.len() as int) + quantity);
            lemma_total_prefix(st.fills, prev.fills, prev.fills.len() as int);
            assert forall|k: int| 0 <= k < st.fills.len() implies exists|j: int|
                0 <= j < n && fill_of(orders, now, #[trigger] st.fills[k], book[j]) by {
                if k < prev.fills.len() {
                    assert(st.fills[k] == prev.fills[k]);
                }
            }
        }
    }
}

/// The total of the first fills depends on those fills alone.
pub proof fn lemma_total_prefix(fills: Seq<Fill>, other: Seq<Fill>, n: int)
    requires
        0 <= n <= fills.len(),
        n <= other.len(),
        forall|k: int| 0 <= k < n ==> fills[k] == other[k],
    ensures
        total(fills, n) == total(other, n),
    decreases n,
{
    if n > 0 {
        lemma_total_prefix(fills, other, n - 1);
    }
}

/// Whether none of the first `n` fills is for the order `id`.
pub open spec fn untouched(fills: Seq<Fill>, n: int, id: u128) -> bool {
    forall|k: int| 0 <= k < n ==> #[trigger] fills[k].resting.id != id
}

/// The store after fills for different orders are applied: each of those
/// orders has the record its fill carries, every other record is as before,
/// and no identifier is new but those of the fills.
pub proof fn lemma_store_after(orders: Map<u128, Order>, fills: Seq<Fill>, n: int)
    requires
        0 <= n <= fills.len(),
        forall|k: int, l: int|
            0 <= k < l < fills.len() ==> #[trigger] fills[k].resting.id != #[trigger] fills[l].resting.id,
    ensures
        forall|k: int|
            0 <= k < n ==> store_after(orders, fills, n).contains_key(#[trigger] fills[k].resting.id)
                && store_after(orders, fills, n)[fills[k].resting.id] == fills[k].resting,
        forall|id: u128| #[trigger]
            untouched(fills, n, id) ==> (store_after(orders, fills, n).contains_key(id)
                <==> orders.contains_key(id)) && store_after(orders, fills, n)[id] == orders[id],
    decreases n,
{
    if n > 0 {
        lemma_store_after(orders, fills, n - 1);
        let before = store_after(orders, fills, n - 1);
        let last = fills[n - 1].resting;
        assert(store_after(orders, fills, n) == before.insert(last.id, last));
        assert forall|id: u128| #[trigger] untouched(fills, n, id) implies (store_after(
            orders,
            fills,
            n,
        ).contains_key(id) <==> orders.contains_key(id)) && store_after(orders, fills, n)[id]
            == orders[id] by {
            assert(fills[n - 1].resting.id != id);
            assert(untouched(fills, n - 1, id));
        }
        assert forall|k: int| 0 <= k < n implies store_after(orders, fills, n).contains_key(
            #[trigger] fills[k].resting.id,
        ) && store_after(orders, fills, n)[fills[k].resting.id] == fills[k].resting by {
            if k < n - 1 {
                assert(fills[k].resting.id != fills[n - 1].resting.id);
            }
        }
    }
}

/// Whether the walk drops entry `j` of the book because its day order has
/// expired.
pub open spec fn drops_expired(
    orders: Map<u128, Order>,
    book: Seq<Resting>,
    incoming: Order,
    now: i64,
    j: int,
) -> bool {
    let before = walk(orders, book, incoming, now, j);
    &&& !before.halted
    &&& before.filled < incoming.quantity.units
    &&& orders.contains_key(book[j].id)
    &&& expired(orders[book[j].id], now)
}

/// Whether entry `e` is accounted for by what is staged: it stays on the
/// book, or a staged fill closes its order.
pub open spec fn accounted(st: Staged, e: Resting) -> bool {
    ||| exists|a: int| 0 <= a < st.kept.len() && #[trigger] st.kept[a] == e
    ||| exists|k: int|
        0 <= k < st.fills.len() && #[trigger] st.fills[k].resting.id == e.id && st.fills[k].resting.status
            == OrderStatus::Closed
}

/// Where the walk drops no expired order, an entry it has visited stays on
/// the book unless a fill closes its order.
pub proof fn lemma_walk_accounts(
    orders: Map<u128, Order>,
    book: Seq<Resting>,
    item: u128,
    incoming: Order,
    now: i64,
    n: int,
    j: int,
)
    requires
        sound_side(orders, book, item, opposite(incoming.order_side)),
        incoming.quantity.units > 0,
        0 <= j < n <= book.len(),
        forall|i: int| 0 <= i < n ==> !#[trigger] drops_expired(orders, book, incoming, now, i),
    ensures
        accounted(walk(orders, book, incoming, now, n), book[j]),
    decreases n,
{
    let side = opposite(incoming.order_side);
    let prev = walk(orders, book, incoming, now, n - 1);
    let e = book[n - 1];
    let st = walk(orders, book, incoming, now, n);
    assert(st == step(orders, incoming, now, prev, e));
    if j < n - 1 {
        lemma_walk_accounts(orders, book, item, incoming, now, n - 1, j);
        if exists|a: int| 0 <= a < prev.kept.len() && #[trigger] prev.kept[a] == book[j] {
            let a = choose|a: int| 0 <= a < prev.kept.len() && #[trigger] prev.kept[a] == book[j];
            assert(st.kept[a] == book[j]);
        } else {
            let k = choose|k: int|
                0 <= k < prev.fills.len() && #[trigger] prev.fills[k].resting.id == book[j].id
                    && prev.fills[k].resting.status == OrderStatus::Closed;
            assert(st.fills[k].resting.id == book[j].id);
        }
    } else {
        assert(entry_ok(orders, item, side, e));
        assert(record_ok(orders[book[n - 1].id]));
        assert(!drops_expired(orders, book, incoming, now, n - 1));
        if st.kept.len() > prev.kept.len() {
            assert(st.kept[st.kept.len() - 1] == e);
        } else {
            assert(st.fills.len() == prev.fills.len() + 1);
            assert(st.fills[st.fills.len() - 1].resting.id == e.id);
        }
    }
}

/// Whether `incoming` is an order as admission creates it: open, with a
/// quantity and nothing filled, under an identifier the store does not hold.
pub open spec fn arrives(orders: Map<u128, Order>, incoming: Order) -> bool {
    &&& !orders.contains_key(incoming.id)
    &&& incoming.quantity.units > 0
    &&& incoming.quantity_filled.units == 0
    &&& incoming.status == OrderStatus::Open
}

/// Every side of a book in order is sound, also once a new order is stored.
pub proof fn lemma_sound_side(
    orders: Map<u128, Order>,
    index: IndexView,
    incoming: Order,
    item: u128,
    side: OrderSide,
)
    requires
        in_order(orders, index),
        !orders.contains_key(incoming.id),
    ensures
        sound_side(orders.insert(incoming.id, incoming), index.resting(item, side), item, side),
{
    let book = index.resting(item, side);
    let stored = orders.insert(incoming.id, incoming);
    assert forall|j: int| 0 <= j < book.len() implies {
        &&& entry_ok(stored, item, side, #[trigger] book[j])
        &&& record_ok(stored[book[j].id])
        &&& stored[book[j].id].id == book[j].id
    } by {
        assert(entry_ok(orders, item, side, index.resting(item, side)[j]));
        assert(orders.contains_key(book[j].id));
    }
}

/// An entry of a sequence that grew by one entry is that entry or one of
/// the old ones.
pub proof fn lemma_insert_entries(seq: Seq<Resting>, p: int, e: Resting)
    requires
        0 <= p <= seq.len(),
    ensures
        seq.insert(p, e).len() == seq.len() + 1,
        seq.insert(p, e)[p] == e,
        forall|i: int|
            0 <= i < seq.len() + 1 ==> #[trigger] seq.insert(p, e)[i] == e || exists|j: int|
                0 <= j < seq.len() && seq[j] == seq.insert(p, e)[i],
{
    let grown = seq.insert(p, e);
    assert forall|i: int| 0 <= i < seq.len() + 1 implies #[trigger] grown[i] == e || exists|j: int|
        0 <= j < seq.len() && seq[j] == grown[i] by {
        if i < p {
            assert(seq[i] == grown[i]);
        } else if i > p {
            assert(seq[i - 1] == grown[i]);
        }
    }
}

/// Every entry of a sequence is still there once the sequence grew by one
/// entry.
pub proof fn lemma_insert_keeps(seq: Seq<Resting>, p: int, e: Resting, j: int)
    requires
        0 <= p <= seq.len(),
        0 <= j < seq.len(),
    ensures
        exists|i: int| 0 <= i < seq.len() + 1 && #[trigger] seq.insert(p, e)[i] == seq[j],
{
    let grown = seq.insert(p, e);
    if j < p {
        assert(grown[j] == seq[j]);
    } else {
        assert(grown[j + 1] == seq[j]);
    }
}

/// The record of a resting order after a fill within what it has available
/// is sound, and the fill changes neither whose order it is nor where it
/// rests.
pub proof fn lemma_filled_record(order: Order, quantity: int, now: i64)
    requires
        record_ok(order),
        is_live(order.status),
        0 < quantity <= available(order),
    ensures
        record_ok(filled_by(order, quantity, now)),
        filled_by(order, quantity, now).id == order.id,
        filled_by(order, quantity, now).item_id == order.item_id,
        filled_by(order, quantity, now).order_side == order.order_side,
        filled_by(order, quantity, now).price == order.price,
        filled_by(order, quantity, now).status == OrderStatus::Closed || filled_by(order, quantity, now).status
            == OrderStatus::PartiallyFilled,
        filled_by(order, quantity, now).quantity_filled.units == order.quantity_filled.units + quantity,
{
}

/// The incoming order as settling leaves it is sound, and it is live only
/// while some of it is left.
pub proof fn lemma_settled_record(incoming: Order, filled: int, now: i64)
    requires
        incoming.quantity.units > 0,
        incoming.quantity_filled.units == 0,
        incoming.status == OrderStatus::Open,
        0 <= filled <= incoming.quantity.units,
    ensures
        record_ok(settled(incoming, filled, now)),
        settled(incoming, filled, now).id == incoming.id,
        settled(incoming, filled, now).item_id == incoming.item_id,
        settled(incoming, filled, now).order_side == incoming.order_side,
        settled(incoming, filled, now).price == incoming.price,
        settled(incoming, filled, now).quantity_filled.units == filled,
        is_live(settled(incoming, filled, now).status) ==> filled < incoming.quantity.units,
        is_live(settled(incoming, filled, now).status) ==> incoming.time_in_force != TimeInForce::IOC,
{
}

/// Whether record `after` is record `before` but for what a fill may
/// change: it has filled no less, and its status and time of update may
/// differ. Whose order it is, what it asks for and when it was created and
/// expires are the same.
pub open spec fn unchanged_but_filled(before: Order, after: Order) -> bool {
    &&& after.id == before.id
    &&& after.item_id == before.item_id
    &&& after.user_id == before.user_id
    &&& after.order_side == before.order_side
    &&& after.order_type == before.order_type
    &&& after.time_in_force == before.time_in_force
    &&& after.price == before.price
    &&& after.quantity == before.quantity
    &&& after.created_at == before.created_at
    &&& after.expires_at == before.expires_at
    &&& after.quantity_filled.units >= before.quantity_filled.units
}

/// Whether record `after` is record `before` untouched, or with one of
/// the staged fills applied to it.
pub open spec fn carried(st: Staged, before: Order, after: Order) -> bool {
    ||| after == before
    ||| exists|k: int| 0 <= k < st.fills.len() && #[trigger] st.fills[k].resting == after && after.id == before.id
}

/// What the store holds once staged fills are committed: the incoming
/// order as settled, and for every other order a sound record that is the
/// old one or the old one with its fill applied, so still of the same item,
/// side and price. Only orders of the walked side carry a fill.
pub proof fn lemma_committed_store(orders: Map<u128, Order>, index: IndexView, incoming: Order, now: i64)
    requires
        in_order(orders, index),
        arrives(orders, incoming),
    ensures
        ({
            let side = opposite(incoming.order_side);
            let book = index.resting(incoming.item_id, side);
            let stored = orders.insert(incoming.id, incoming);
            let st = walk(stored, book, incoming, now, book.len() as int);
            let after = store_after(stored, st.fills, st.fills.len() as int);
            &&& after.contains_key(incoming.id) && after[incoming.id] == incoming
            &&& forall|id: u128|
                id != incoming.id ==> (#[trigger] after.contains_key(id) <==> orders.contains_key(id))
            &&& forall|id: u128|
                id != incoming.id && orders.contains_key(id) ==> {
                    &&& (#[trigger] after[id]).id == id
                    &&& record_ok(after[id])
                    &&& after[id].item_id == orders[id].item_id
                    &&& after[id].order_side == orders[id].order_side
                    &&& after[id].price == orders[id].price
                    &&& carried(st, orders[id], after[id])
                    &&& (after[id] != orders[id] ==> orders[id].item_id == incoming.item_id
                        && orders[id].order_side == side)
                    &&& (after[id] != orders[id] ==> after[id].status == OrderStatus::Closed || after[id].status
                        == OrderStatus::PartiallyFilled)
                    &&& (after[id] == orders[id] ==> untouched(st.fills, st.fills.len() as int, id))
                    &&& unchanged_but_filled(orders[id], after[id])
                    &&& (!is_live(orders[id].status) ==> after[id] == orders[id])
                    &&& (after[id] != orders[id] ==> after[id].updated_at == now)
                }
        }),
{
    let side = opposite(incoming.order_side);
    let item = incoming.item_id;
    let book = index.resting(item, side);
    let stored = orders.insert(incoming.id, incoming);
    let st = walk(stored, book, incoming, now, book.len() as int);
    let n = st.fills.len() as int;
    let after = store_after(stored, st.fills, n);
    lemma_sound_side(orders, index, incoming, item, side);
    lemma_walk(stored, book, item, incoming, now, book.len() as int);
    lemma_store_after(stored, st.fills, n);
    // every fill is for an order of the walked side, never for the newcomer
    assert forall|k: int| 0 <= k < n implies {
        let f = #[trigger] st.fills[k];
        &&& f.resting.id != incoming.id
        &&& orders.contains_key(f.resting.id)
        &&& f.resting == filled_by(orders[f.resting.id], f.quantity.units as int, now)
        &&& 0 < f.quantity.units <= available(orders[f.resting.id])
        &&& orders[f.resting.id].item_id == item
        &&& orders[f.resting.id].order_side == side
        &&& is_live(orders[f.resting.id].status)
        &&& record_ok(orders[f.resting.id])
    } by {
        let f = st.fills[k];
        let j = choose|j: int| 0 <= j < book.len() && fill_of(stored, now, st.fills[k], book[j]);
        assert(entry_ok(orders, item, side, index.resting(item, side)[j]));
        assert(orders.contains_key(book[j].id));
    }
    assert(untouched(st.fills, n, incoming.id));
    assert forall|id: u128| id != incoming.id implies (#[trigger] after.contains_key(id) <==> orders.contains_key(
        id,
    )) by {
        if untouched(st.fills, n, id) {
        } else {
            let k = choose|k: int| 0 <= k < n && st.fills[k].resting.id == id;
            assert(after.contains_key(st.fills[k].resting.id));
        }
    }
    assert forall|id: u128| id != incoming.id && orders.contains_key(id) implies {
        &&& (#[trigger] after[id]).id == id
        &&& record_ok(after[id])
        &&& after[id].item_id == orders[id].item_id
        &&& after[id].order_side == orders[id].order_side
        &&& after[id].price == orders[id].price
        &&& carried(st, orders[id], after[id])
        &&& (after[id] != orders[id] ==> orders[id].item_id == incoming.item_id && orders[id].order_side
            == side)
        &&& (after[id] != orders[id] ==> after[id].status == OrderStatus::Closed || after[id].status
            == OrderStatus::PartiallyFilled)
        &&& (after[id] == orders[id] ==> untouched(st.fills, st.fills.len() as int, id))
        &&& unchanged_but_filled(orders[id], after[id])
        &&& (!is_live(orders[id].status) ==> after[id] == orders[id])
        &&& (after[id] != orders[id] ==> after[id].updated_at == now)
    } by {
        if untouched(st.fills, n, id) {
            assert(after[id] == stored[id]);
        } else {
            let k = choose|k: int| 0 <= k < n && st.fills[k].resting.id == id;
            let f = st.fills[k];
            assert(after[f.resting.id] == f.resting);
            lemma_filled_record(orders[id], f.quantity.units as int, now);
            assert(st.fills[k].resting == after[id]);
        }
    }
}

/// The entries of an item and side once a walk is committed: what the
/// walk kept on the walked side, the incoming order behind its price level
/// on its own side if it is still live, and the old entries elsewhere.
pub open spec fn resting_after(
    index: IndexView,
    incoming: Order,
    kept: Seq<Resting>,
    done: Order,
    item: u128,
    side: OrderSide,
) -> Seq<Resting> {
    if item == incoming.item_id && side == opposite(incoming.order_side) {
        kept
    } else if item == incoming.item_id && side == incoming.order_side && is_live(done.status) {
        let own = index.resting(item, side);
        own.insert(landing(own, side, done.price, 0), Resting { price: done.price, id: done.id })
    } else {
        index.resting(item, side)
    }
}

/// The index after a committed walk holds, for every item and side, the
/// entries that [`resting_after`] names.
pub proof fn lemma_settle_resting(
    orders: Map<u128, Order>,
    index: IndexView,
    incoming: Order,
    now: i64,
    item: u128,
    side: OrderSide,
)
    requires
        ({
            let book = index.resting(incoming.item_id, opposite(incoming.order_side));
            !is_killed(incoming, walk(orders, book, incoming, now, book.len() as int).filled)
        }),
        settled(
            incoming,
            walk(
                orders,
                index.resting(incoming.item_id, opposite(incoming.order_side)),
                incoming,
                now,
                index.resting(incoming.item_id, opposite(incoming.order_side)).len() as int,
            ).filled,
            now,
        ).item_id == incoming.item_id,
        settled(
            incoming,
            walk(
                orders,
                index.resting(incoming.item_id, opposite(incoming.order_side)),
                incoming,
                now,
                index.resting(incoming.item_id, opposite(incoming.order_side)).len() as int,
            ).filled,
            now,
        ).order_side == incoming.order_side,
    ensures
        ({
            let book = index.resting(incoming.item_id, opposite(incoming.order_side));
            let st = walk(orders, book, incoming, now, book.len() as int);
            let out = settle(orders, index, incoming, now);
            out.index.resting(item, side) == resting_after(
                index,
                incoming,
                st.kept,
                settled(incoming, st.filled, now),
                item,
                side,
            )
        }),
{
    let walked = opposite(incoming.order_side);
    let book = index.resting(incoming.item_id, walked);
    let st = walk(orders, book, incoming, now, book.len() as int);
    let done = settled(incoming, st.filled, now);
    let swept = index.put(incoming.item_id, walked, st.kept);
    lemma_put_resting(index, incoming.item_id, walked, st.kept, item, side);
    lemma_put_resting(index, incoming.item_id, walked, st.kept, incoming.item_id, incoming.order_side);
    if is_live(done.status) {
        let own = swept.resting(done.item_id, done.order_side);
        lemma_put_resting(
            swept,
            done.item_id,
            done.order_side,
            own.insert(landing(own, done.order_side, done.price, 0), Resting { price: done.price, id: done.id }),
            item,
            side,
        );
    }
}

/// A fill-or-kill order that is killed leaves the book in order.
pub proof fn lemma_kill_in_order(orders: Map<u128, Order>, index: IndexView, incoming: Order, now: i64)
    requires
        in_order(orders, index),
        arrives(orders, incoming),
    ensures
        in_order(
            orders.insert(incoming.id, Order { status: OrderStatus::Cancelled, updated_at: now, ..incoming }),
            index,
        ),
{
    let killed = Order { status: OrderStatus::Cancelled, updated_at: now, ..incoming };
    let after = orders.insert(incoming.id, killed);
    assert forall|item: u128, side: OrderSide, i: int| 0 <= i < index.resting(item, side).len() implies entry_ok(
        after,
        item,
        side,
        #[trigger] index.resting(item, side)[i],
    ) by {
        assert(entry_ok(orders, item, side, index.resting(item, side)[i]));
    }
}

/// After a committed walk every entry of the index stands for a live order
/// where it belongs.
pub proof fn lemma_commit_entries(
    orders: Map<u128, Order>,
    index: IndexView,
    incoming: Order,
    now: i64,
    item: u128,
    side: OrderSide,
    i: int,
)
    requires
        in_order(orders, index),
        arrives(orders, incoming),
        ({
            let stored = orders.insert(incoming.id, incoming);
            let book = index.resting(incoming.item_id, opposite(incoming.order_side));
            !is_killed(incoming, walk(stored, book, incoming, now, book.len() as int).filled)
        }),
        0 <= i < settle(orders.insert(incoming.id, incoming), index, incoming, now).index.resting(item, side).len(),
    ensures
        ({
            let out = settle(orders.insert(incoming.id, incoming), index, incoming, now);
            entry_ok(out.orders, item, side, out.index.resting(item, side)[i])
        }),
{
    let walked = opposite(incoming.order_side);
    let own = incoming.order_side;
    let book = index.resting(incoming.item_id, walked);
    let stored = orders.insert(incoming.id, incoming);
    let st = walk(stored, book, incoming, now, book.len() as int);
    let out = settle(stored, index, incoming, now);
    let done = settled(incoming, st.filled, now);
    let after = store_after(stored, st.fills, st.fills.len() as int);
    lemma_sound_side(orders, index, incoming, incoming.item_id, walked);
    lemma_walk(stored, book, incoming.item_id, incoming, now, book.len() as int);
    lemma_committed_store(orders, index, incoming, now);
    lemma_settled_record(incoming, st.filled, now);
    lemma_settle_resting(stored, index, incoming, now, item, side);
    assert(out.orders == after.insert(incoming.id, done));
    let e = out.index.resting(item, side)[i];
    if item == incoming.item_id && side == walked {
        let j = choose|j: int| 0 <= j < book.len() && book[j] == st.kept[i];
        assert(entry_ok(orders, item, side, index.resting(item, side)[j]));
        assert(e.id != incoming.id);
        assert(after.contains_key(e.id));
        if after[e.id] != orders[e.id] {
            let k = choose|k: int|
                0 <= k < st.fills.len() && #[trigger] st.fills[k].resting == after[e.id] && after[e.id].id
                    == orders[e.id].id;
            assert(st.kept[i].id == st.fills[k].resting.id);
        }
    } else if item == incoming.item_id && side == own && is_live(done.status) {
        let before = index.resting(item, side);
        let e_new = Resting { price: done.price, id: done.id };
        let p = landing(before, side, done.price, 0);
        lemma_landing(before, side, done.price, 0);
        lemma_insert_entries(before, p, e_new);
        if e == e_new {
        } else {
            let j = choose|j: int| 0 <= j < before.len() && before[j] == e;
            assert(entry_ok(orders, item, side, index.resting(item, side)[j]));
            assert(after.contains_key(e.id));
        }
    } else {
        assert(entry_ok(orders, item, side, index.resting(item, side)[i]));
        assert(after.contains_key(e.id));
    }
}

/// After a committed walk the entries of every item and side are in price
/// priority and name no order twice.
pub proof fn lemma_commit_ordered(
    orders: Map<u128, Order>,
    index: IndexView,
    incoming: Order,
    now: i64,
    item: u128,
    side: OrderSide,
)
    requires
        in_order(orders, index),
        arrives(orders, incoming),
        ({
            let stored = orders.insert(incoming.id, incoming);
            let book = index.resting(incoming.item_id, opposite(incoming.order_side));
            !is_killed(incoming, walk(stored, book, incoming, now, book.len() as int).filled)
        }),
    ensures
        ({
            let out = settle(orders.insert(incoming.id, incoming), index, incoming, now);
            ordered(out.index.resting(item, side), side) && distinct(out.index.resting(item, side))
        }),
{
    let walked = opposite(incoming.order_side);
    let own = incoming.order_side;
    let book = index.resting(incoming.item_id, walked);
    let stored = orders.insert(incoming.id, incoming);
    let st = walk(stored, book, incoming, now, book.len() as int);
    let done = settled(incoming, st.filled, now);
    lemma_sound_side(orders, index, incoming, incoming.item_id, walked);
    lemma_walk(stored, book, incoming.item_id, incoming, now, book.len() as int);
    lemma_settled_record(incoming, st.filled, now);
    lemma_settle_resting(stored, index, incoming, now, item, side);
    assert(ordered(index.resting(item, side), side) && distinct(index.resting(item, side)));
    if item == incoming.item_id && side == own && is_live(done.status) {
        let before = index.resting(item, side);
        let e_new = Resting { price: done.price, id: done.id };
        let p = landing(before, side, done.price, 0);
        lemma_landing(before, side, done.price, 0);
        lemma_insert_ordered(before, side, e_new);
        assert forall|j: int| 0 <= j < before.len() implies #[trigger] before[j].id != e_new.id by {
            assert(entry_ok(orders, item, side, index.resting(item, side)[j]));
        }
        lemma_insert_distinct(before, p, e_new);
    }
}

/// After a committed walk no bid of an item reaches an ask of it.
pub proof fn lemma_commit_uncrossed(
    orders: Map<u128, Order>,
    index: IndexView,
    incoming: Order,
    now: i64,
    item: u128,
)
    requires
        in_order(orders, index),
        arrives(orders, incoming),
        ({
            let stored = orders.insert(incoming.id, incoming);
            let book = index.resting(incoming.item_id, opposite(incoming.order_side));
            !is_killed(incoming, walk(stored, book, incoming, now, book.len() as int).filled)
        }),
    ensures
        ({
            let out = settle(orders.insert(incoming.id, incoming), index, incoming, now);
            uncrossed(out.index.resting(item, OrderSide::Buy), out.index.resting(item, OrderSide::Sell))
        }),
{
    let walked = opposite(incoming.order_side);
    let own = incoming.order_side;
    let book = index.resting(incoming.item_id, walked);
    let stored = orders.insert(incoming.id, incoming);
    let st = walk(stored, book, incoming, now, book.len() as int);
    let out = settle(stored, index, incoming, now);
    let done = settled(incoming, st.filled, now);
    lemma_sound_side(orders, index, incoming, incoming.item_id, walked);
    lemma_walk(stored, book, incoming.item_id, incoming, now, book.len() as int);
    lemma_settled_record(incoming, st.filled, now);
    lemma_settle_resting(stored, index, incoming, now, item, OrderSide::Buy);
    lemma_settle_resting(stored, index, incoming, now, item, OrderSide::Sell);
    let bids = out.index.resting(item, OrderSide::Buy);
    let asks = out.index.resting(item, OrderSide::Sell);
    let old_bids = index.resting(item, OrderSide::Buy);
    let old_asks = index.resting(item, OrderSide::Sell);
    assert(uncrossed(old_bids, old_asks));
    if item == incoming.item_id {
        let before = index.resting(item, own);
        let e_new = Resting { price: done.price, id: done.id };
        let p = landing(before, own, done.price, 0);
        lemma_landing(before, own, done.price, 0);
        lemma_insert_entries(before, p, e_new);
        assert forall|i: int, j: int| 0 <= i < bids.len() && 0 <= j < asks.len() implies #[trigger] bids[i].price.units
            < #[trigger] asks[j].price.units by {
            if own == OrderSide::Buy {
                let ja = choose|ja: int| 0 <= ja < book.len() && book[ja] == st.kept[j];
                if is_live(done.status) {
                    if bids[i] == e_new {
                        assert(shy(incoming, st.kept[j].price));
                    } else {
                        let ib = choose|ib: int| 0 <= ib < before.len() && before[ib] == bids[i];
                        assert(old_bids[ib].price.units < old_asks[ja].price.units);
                    }
                } else {
                    assert(old_bids[i].price.units < old_asks[ja].price.units);
                }
            } else {
                let ib = choose|ib: int| 0 <= ib < book.len() && book[ib] == st.kept[i];
                if is_live(done.status) {
                    if asks[j] == e_new {
                        assert(shy(incoming, st.kept[i].price));
                    } else {
                        let ja = choose|ja: int| 0 <= ja < before.len() && before[ja] == asks[j];
                        assert(old_bids[ib].price.units < old_asks[ja].price.units);
                    }
                } else {
                    assert(old_bids[ib].price.units < old_asks[j].price.units);
                }
            }
        }
    }
}

/// Matching keeps the book in order: if the store and the index are in
/// order and an order arrives as admission creates it, they are in order
/// again once the order is stored, matched and settled.
pub proof fn lemma_settle_in_order(orders: Map<u128, Order>, index: IndexView, incoming: Order, now: i64)
    requires
        in_order(orders, index),
        arrives(orders, incoming),
    ensures
        ({
            let out = settle(orders.insert(incoming.id, incoming), index, incoming, now);
            in_order(out.orders, out.index)
        }),
{
    let walked = opposite(incoming.order_side);
    let book = index.resting(incoming.item_id, walked);
    let stored = orders.insert(incoming.id, incoming);
    let st = walk(stored, book, incoming, now, book.len() as int);
    let out = settle(stored, index, incoming, now);
    if is_killed(incoming, st.filled) {
        lemma_kill_in_order(orders, index, incoming, now);
        assert(out.orders =~= orders.insert(
            incoming.id,
            Order { status: OrderStatus::Cancelled, updated_at: now, ..incoming },
        ));
    } else {
        let done = settled(incoming, st.filled, now);
        let after = store_after(stored, st.fills, st.fills.len() as int);
        assert forall|id: u128| #[trigger] out.orders.contains_key(id) implies out.orders[id].id == id
            && record_ok(out.orders[id]) by {
            lemma_sound_side(orders, index, incoming, incoming.item_id, walked);
            lemma_walk(stored, book, incoming.item_id, incoming, now, book.len() as int);
            lemma_committed_store(orders, index, incoming, now);
            lemma_settled_record(incoming, st.filled, now);
            assert(out.orders == after.insert(incoming.id, done));
            if id != incoming.id {
                assert(after.contains_key(id));
                assert(after[id].id == id);
            }
        }
        assert forall|item: u128, side: OrderSide, i: int|
            0 <= i < out.index.resting(item, side).len() implies entry_ok(
            out.orders,
            item,
            side,
            #[trigger] out.index.resting(item, side)[i],
        ) by {
            lemma_commit_entries(orders, index, incoming, now, item, side, i);
        }
        assert forall|item: u128, side: OrderSide|
            ordered(#[trigger] out.index.resting(item, side), side) && distinct(
                out.index.resting(item, side),
            ) by {
            lemma_commit_ordered(orders, index, incoming, now, item, side);
        }
        assert forall|item: u128| #[trigger]
            uncrossed(out.index.resting(item, OrderSide::Buy), out.index.resting(item, OrderSide::Sell)) by {
            lemma_commit_uncrossed(orders, index, incoming, now, item);
        }
    }
}

/// Whether settling `incoming` drops a resting day order as expired: the
/// walk is committed and meets such an order before it halts or completes.
pub open spec fn drops_any_expired(orders: Map<u128, Order>, index: IndexView, incoming: Order, now: i64) -> bool {
    let book = index.resting(incoming.item_id, opposite(incoming.order_side));
    &&& !is_killed(incoming, walk(orders, book, incoming, now, book.len() as int).filled)
    &&& exists|j: int| 0 <= j < book.len() && #[trigger] drops_expired(orders, book, incoming, now, j)
}

/// A live order that rested before a committed walk rests after it, where
/// the walk drops no expired order.
proof fn lemma_commit_still_resting(
    orders: Map<u128, Order>,
    index: IndexView,
    incoming: Order,
    now: i64,
    id: u128,
)
    requires
        in_order(orders, index),
        all_resting(orders, index),
        arrives(orders, incoming),
        !drops_any_expired(orders.insert(incoming.id, incoming), index, incoming, now),
        ({
            let stored = orders.insert(incoming.id, incoming);
            let book = index.resting(incoming.item_id, opposite(incoming.order_side));
            !is_killed(incoming, walk(stored, book, incoming, now, book.len() as int).filled)
        }),
        id != incoming.id,
        orders.contains_key(id),
        is_live(settle(orders.insert(incoming.id, incoming), index, incoming, now).orders[id].status),
    ensures
        ({
            let out = settle(orders.insert(incoming.id, incoming), index, incoming, now);
            out.index.holds(out.orders[id].item_id, out.orders[id].order_side, id)
        }),
{
    let walked = opposite(incoming.order_side);
    let own = incoming.order_side;
    let book = index.resting(incoming.item_id, walked);
    let stored = orders.insert(incoming.id, incoming);
    let st = walk(stored, book, incoming, now, book.len() as int);
    let out = settle(stored, index, incoming, now);
    let done = settled(incoming, st.filled, now);
    let after = store_after(stored, st.fills, st.fills.len() as int);
    let item = orders[id].item_id;
    let side = orders[id].order_side;
    lemma_sound_side(orders, index, incoming, incoming.item_id, walked);
    lemma_committed_store(orders, index, incoming, now);
    assert(0 <= st.filled <= incoming.quantity.units) by {
        lemma_walk(stored, book, incoming.item_id, incoming, now, book.len() as int);
    }
    lemma_settled_record(incoming, st.filled, now);
    lemma_settle_resting(stored, index, incoming, now, item, side);
    assert(out.orders == after.insert(incoming.id, done));
    assert(out.orders[id] == after[id]);
    let final_seq = out.index.resting(item, side);
    if item == incoming.item_id && side == walked {
        // find the entry the order had on the walked side
        let j: int;
        if after[id] == orders[id] {
            assert(index.holds(item, side, id));
            j = choose|j: int| 0 <= j < index.resting(item, side).len() && #[trigger] index.resting(item, side)[j].id == id;
        } else {
            lemma_walk(stored, book, incoming.item_id, incoming, now, book.len() as int);
            let k = choose|k: int|
                0 <= k < st.fills.len() && #[trigger] st.fills[k].resting == after[id] && after[id].id
                    == orders[id].id;
            j = choose|j: int| 0 <= j < book.len() && fill_of(stored, now, st.fills[k], book[j]);
        }
        assert(0 <= j < book.len() && book[j].id == id);
        assert forall|i: int| 0 <= i < book.len() implies !#[trigger] drops_expired(stored, book, incoming, now, i) by {}
        lemma_walk_accounts(stored, book, incoming.item_id, incoming, now, book.len() as int, j);
        if exists|a: int| 0 <= a < st.kept.len() && #[trigger] st.kept[a] == book[j] {
            let a = choose|a: int| 0 <= a < st.kept.len() && #[trigger] st.kept[a] == book[j];
            assert(final_seq[a].id == id);
        } else {
            let k = choose|k: int|
                0 <= k < st.fills.len() && #[trigger] st.fills[k].resting.id == book[j].id && st.fills[k].resting.status
                    == OrderStatus::Closed;
            lemma_walk(stored, book, incoming.item_id, incoming, now, book.len() as int);
            lemma_store_after(stored, st.fills, st.fills.len() as int);
            assert(after[st.fills[k].resting.id] == st.fills[k].resting);
            assert(false);
        }
    } else {
        assert(after[id] == orders[id]);
        assert(index.holds(item, side, id));
        let j = choose|j: int| 0 <= j < index.resting(item, side).len() && #[trigger] index.resting(item, side)[j].id == id;
        if item == incoming.item_id && side == own && is_live(done.status) {
            let before = index.resting(item, side);
            let e_new = Resting { price: done.price, id: done.id };
            let p = landing(before, side, done.price, 0);
            lemma_landing(before, side, done.price, 0);
            lemma_insert_keeps(before, p, e_new, j);
            let i = choose|i: int| 0 <= i < before.len() + 1 && #[trigger] before.insert(p, e_new)[i] == before[j];
            assert(final_seq[i].id == id);
        } else {
            assert(final_seq[j].id == id);
        }
    }
}

/// Matching keeps every live order on the book, unless it drops a day
/// order as expired: if the book is in order and holds every live order,
/// it holds every live order again once an arriving order is settled.
pub proof fn lemma_settle_complete(orders: Map<u128, Order>, index: IndexView, incoming: Order, now: i64)
    requires
        in_order(orders, index),
        all_resting(orders, index),
        arrives(orders, incoming),
        !drops_any_expired(orders.insert(incoming.id, incoming), index, incoming, now),
    ensures
        ({
            let out = settle(orders.insert(incoming.id, incoming), index, incoming, now);
            all_resting(out.orders, out.index)
        }),
{
    let walked = opposite(incoming.order_side);
    let book = index.resting(incoming.item_id, walked);
    let stored = orders.insert(incoming.id, incoming);
    let st = walk(stored, book, incoming, now, book.len() as int);
    let out = settle(stored, index, incoming, now);
    if is_killed(incoming, st.filled) {
        assert forall|id: u128| #[trigger]
            out.orders.contains_key(id) && is_live(out.orders[id].status) implies out.index.holds(
            out.orders[id].item_id,
            out.orders[id].order_side,
            id,
        ) by {
            assert(orders.contains_key(id));
        }
    } else {
        let done = settled(incoming, st.filled, now);
        let after = store_after(stored, st.fills, st.fills.len() as int);
        assert forall|id: u128| #[trigger]
            out.orders.contains_key(id) && is_live(out.orders[id].status) implies out.index.holds(
            out.orders[id].item_id,
            out.orders[id].order_side,
            id,
        ) by {
            lemma_sound_side(orders, index, incoming, incoming.item_id, walked);
            lemma_walk(stored, book, incoming.item_id, incoming, now, book.len() as int);
            lemma_settled_record(incoming, st.filled, now);
            if id == incoming.id {
                lemma_settle_resting(stored, index, incoming, now, incoming.item_id, incoming.order_side);
                let before = index.resting(incoming.item_id, incoming.order_side);
                let e_new = Resting { price: done.price, id: done.id };
                let p = landing(before, incoming.order_side, done.price, 0);
                lemma_landing(before, incoming.order_side, done.price, 0);
                lemma_insert_entries(before, p, e_new);
                assert(out.index.resting(incoming.item_id, incoming.order_side)[p].id == id);
            } else {
                lemma_committed_store(orders, index, incoming, now);
                assert(out.orders == after.insert(incoming.id, done));
                assert(after.contains_key(id));
                lemma_commit_still_resting(orders, index, incoming, now, id);
            }
        }
    }
}

/// Taking an order out of a level leaves entries of the old sequence, in
/// their old order, and none that rests at the price under the identifier.
pub proof fn lemma_without(seq: Seq<Resting>, price: Amount, id: u128, side: OrderSide)
    requires
        ordered(seq, side),
        distinct(seq),
    ensures
        drawn(without(seq, price, id), seq, seq.len() as int),
        ordered(without(seq, price, id), side),
        distinct(without(seq, price, id)),
        forall|a: int| 0 <= a < without(seq, price, id).len() ==> !is_entry(#[trigger] without(seq, price, id)[a], price, id),
    decreases seq.len(),
{
    reveal(Seq::filter);
    if seq.len() > 0 {
        let front = seq.drop_last();
        let n = seq.len() - 1;
        assert forall|i: int, j: int| 0 <= i < j < front.len() implies !worse(
            side,
            #[trigger] front[i].price,
            #[trigger] front[j].price,
        ) && front[i].id != front[j].id by {
            assert(front[i] == seq[i] && front[j] == seq[j]);
        }
        lemma_without(front, price, id, side);
        let sub = without(front, price, id);
        assert forall|a: int| 0 <= a < sub.len() implies exists|j: int|
            0 <= j < n && j < seq.len() && seq[j] == #[trigger] sub[a] by {
            let j = choose|j: int| 0 <= j < front.len() && front[j] == sub[a];
            assert(seq[j] == sub[a]);
        }
        assert(drawn(sub, seq, n));
        lemma_push_drawn(sub, seq, n, side);
        assert(seq[n] == seq.last());
    }
}

/// Taking an order out of a level leaves every other entry in place.
pub proof fn lemma_without_keeps(seq: Seq<Resting>, price: Amount, id: u128, j: int)
    requires
        0 <= j < seq.len(),
        !is_entry(seq[j], price, id),
    ensures
        exists|a: int| 0 <= a < without(seq, price, id).len() && #[trigger] without(seq, price, id)[a] == seq[j],
    decreases seq.len(),
{
    reveal(Seq::filter);
    let front = seq.drop_last();
    let sub = without(front, price, id);
    if j < seq.len() - 1 {
        assert(front[j] == seq[j]);
        lemma_without_keeps(front, price, id, j);
        let a = choose|a: int| 0 <= a < sub.len() && #[trigger] sub[a] == front[j];
        assert(without(seq, price, id)[a] == seq[j]);
    } else {
        assert(seq.last() == seq[j]);
        assert(without(seq, price, id) == sub.push(seq[j]));
        assert(without(seq, price, id)[sub.len() as int] == seq[j]);
    }
}

/// Cancelling keeps the book in order.
pub proof fn lemma_cancel_in_order(book: BookView, id: u128, now: i64)
    requires
        book.consistent(),
    ensures
        cancelled(book, id, now).consistent(),
{
    if cancellable(book, id) {
        let order = book.orders[id];
        let item = order.item_id;
        let side = order.order_side;
        let after = cancelled(book, id, now);
        let seq = book.index.resting(item, side);
        let left = without(seq, order.price, id);
        assert(ordered(book.index.resting(item, side), side) && distinct(book.index.resting(item, side)));
        lemma_without(seq, order.price, id, side);
        assert forall|item2: u128, side2: OrderSide| true implies #[trigger] after.index.resting(item2, side2) == (if item2
            == item && side2 == side {
            left
        } else {
            book.index.resting(item2, side2)
        }) by {
            lemma_put_resting(book.index, item, side, left, item2, side2);
        }
        assert forall|item2: u128, side2: OrderSide, i: int|
            0 <= i < after.index.resting(item2, side2).len() implies entry_ok(
            after.orders,
            item2,
            side2,
            #[trigger] after.index.resting(item2, side2)[i],
        ) by {
            let e = after.index.resting(item2, side2)[i];
            if item2 == item && side2 == side {
                let j = choose|j: int| 0 <= j < seq.len() && seq[j] == left[i];
                assert(entry_ok(book.orders, item, side, book.index.resting(item, side)[j]));
                assert(!is_entry(left[i], order.price, id));
            } else {
                assert(entry_ok(book.orders, item2, side2, book.index.resting(item2, side2)[i]));
            }
        }
        assert forall|item2: u128, side2: OrderSide|
            ordered(#[trigger] after.index.resting(item2, side2), side2) && distinct(
                after.index.resting(item2, side2),
            ) by {
            assert(ordered(book.index.resting(item2, side2), side2) && distinct(
                book.index.resting(item2, side2),
            ));
        }
        assert forall|item2: u128| #[trigger]
            uncrossed(after.index.resting(item2, OrderSide::Buy), after.index.resting(item2, OrderSide::Sell)) by {
            let bids = after.index.resting(item2, OrderSide::Buy);
            let asks = after.index.resting(item2, OrderSide::Sell);
            let old_bids = book.index.resting(item2, OrderSide::Buy);
            let old_asks = book.index.resting(item2, OrderSide::Sell);
            assert(uncrossed(old_bids, old_asks));
            assert forall|i: int, j: int| 0 <= i < bids.len() && 0 <= j < asks.len() implies #[trigger] bids[i].price.units
                < #[trigger] asks[j].price.units by {
                if item2 == item && side == OrderSide::Buy {
                    let ib = choose|ib: int| 0 <= ib < seq.len() && seq[ib] == left[i];
                    assert(old_bids[ib].price.units < old_asks[j].price.units);
                } else if item2 == item {
                    let ja = choose|ja: int| 0 <= ja < seq.len() && seq[ja] == left[j];
                    assert(old_bids[i].price.units < old_asks[ja].price.units);
                } else {
                    assert(old_bids[i].price.units < old_asks[j].price.units);
                }
            }
        }
    }
}

/// Cancelling keeps every live order on the book.
pub proof fn lemma_cancel_complete(book: BookView, id: u128, now: i64)
    requires
        book.consistent(),
        book.complete(),
    ensures
        cancelled(book, id, now).complete(),
{
    if cancellable(book, id) {
        let order = book.orders[id];
        let item = order.item_id;
        let side = order.order_side;
        let after = cancelled(book, id, now);
        let seq = book.index.resting(item, side);
        let left = without(seq, order.price, id);
        assert forall|other: u128| #[trigger]
            after.orders.contains_key(other) && is_live(after.orders[other].status) implies after.index.holds(
            after.orders[other].item_id,
            after.orders[other].order_side,
            other,
        ) by {
            assert(other != id);
            assert(book.orders.contains_key(other));
            let item2 = book.orders[other].item_id;
            let side2 = book.orders[other].order_side;
            assert(book.index.holds(item2, side2, other));
            let j = choose|j: int|
                0 <= j < book.index.resting(item2, side2).len() && #[trigger] book.index.resting(item2, side2)[j].id
                    == other;
            lemma_put_resting(book.index, item, side, left, item2, side2);
            if item2 == item && side2 == side {
                lemma_without_keeps(seq, order.price, id, j);
                let a = choose|a: int| 0 <= a < left.len() && #[trigger] left[a] == seq[j];
                assert(after.index.resting(item2, side2)[a].id == other);
            } else {
                assert(after.index.resting(item2, side2)[j].id == other);
            }
        }
    }
}

/// A fill is staged at the price of an entry of the book, for the order of
/// that entry, and only where the incoming order crosses that order.
pub proof fn lemma_fill_crosses(
    orders: Map<u128, Order>,
    book: Seq<Resting>,
    incoming: Order,
    now: i64,
    n: int,
    k: int,
)
    requires
        0 <= n <= book.len(),
        0 <= k < walk(orders, book, incoming, now, n).fills.len(),
    ensures
        exists|j: int|
            0 <= j < n && orders.contains_key(#[trigger] book[j].id) && crosses(incoming, orders[book[j].id])
                && walk(orders, book, incoming, now, n).fills[k].price == book[j].price && walk(
                orders,
                book,
                incoming,
                now,
                n,
            ).fills[k].resting == filled_by(
                orders[book[j].id],
                walk(orders, book, incoming, now, n).fills[k].quantity.units as int,
                now,
            ),
    decreases n,
{
    if n > 0 {
        let prev = walk(orders, book, incoming, now, n - 1);
        let st = walk(orders, book, incoming, now, n);
        assert(st == step(orders, incoming, now, prev, book[n - 1]));
        if k < prev.fills.len() {
            lemma_fill_crosses(orders, book, incoming, now, n - 1, k);
            assert(st.fills[k] == prev.fills[k]);
        } else {
            assert(orders.contains_key(book[n - 1].id));
            let left = incoming.quantity.units - prev.filled;
            let free = available(orders[book[n - 1].id]);
            let quantity = if free <= left { free } else { left };
            assert(0 < quantity <= left);
            assert(st.fills[k].quantity.units == quantity) by {
                lemma_walk_bounds(orders, book, incoming, now, n - 1);
            }
        }
    }
}

/// What a walk has staged for the incoming order is never negative, and
/// never more than the order asks for once anything is staged.
pub proof fn lemma_walk_bounds(orders: Map<u128, Order>, book: Seq<Resting>, incoming: Order, now: i64, n: int)
    requires
        0 <= n <= book.len(),
    ensures
        0 <= walk(orders, book, incoming, now, n).filled,
        walk(orders, book, incoming, now, n).filled > 0 ==> walk(orders, book, incoming, now, n).filled
            <= incoming.quantity.units,
    decreases n,
{
    if n > 0 {
        lemma_walk_bounds(orders, book, incoming, now, n - 1);
    }
}

/// A sequence that grows by the next entry of the one it is drawn from
/// stays first come, first served.
pub proof fn lemma_push_first_come(orders: Map<u128, Order>, sub: Seq<Resting>, seq: Seq<Resting>, n: int)
    requires
        0 <= n < seq.len(),
        drawn(sub, seq, n),
        first_come(orders, seq),
        first_come(orders, sub),
    ensures
        first_come(orders, sub.push(seq[n])),
        drawn(sub.push(seq[n]), seq, n + 1),
        drawn(sub, seq, n + 1),
{
    lemma_push_is_drawn(sub, seq, n);
    let grown = sub.push(seq[n]);
    assert forall|i: int, j: int| 0 <= i < j < grown.len() && grown[i].price == grown[j].price implies orders[#[trigger] grown[i].id].created_at
        <= orders[#[trigger] grown[j].id].created_at by {
        if j < sub.len() {
            assert(grown[i] == sub[i] && grown[j] == sub[j]);
        } else {
            let k = choose|k: int| 0 <= k < n && k < seq.len() && seq[k] == sub[i];
            assert(grown[i] == seq[k] && grown[j] == seq[n]);
        }
    }
}

/// What a walk keeps of a side that is first come, first served is first
/// come, first served.
pub proof fn lemma_walk_first_come(
    times: Map<u128, Order>,
    orders: Map<u128, Order>,
    book: Seq<Resting>,
    incoming: Order,
    now: i64,
    n: int,
)
    requires
        first_come(times, book),
        0 <= n <= book.len(),
    ensures
        first_come(times, walk(orders, book, incoming, now, n).kept),
        drawn(walk(orders, book, incoming, now, n).kept, book, n),
    decreases n,
{
    if n > 0 {
        lemma_walk_first_come(times, orders, book, incoming, now, n - 1);
        let prev = walk(orders, book, incoming, now, n - 1);
        let st = walk(orders, book, incoming, now, n);
        assert(st == step(orders, incoming, now, prev, book[n - 1]));
        lemma_push_first_come(times, prev.kept, book, n - 1);
        assert(st.kept == prev.kept || st.kept == prev.kept.push(book[n - 1]));
    }
}

/// Taking an order out of a level leaves the level first come, first
/// served.
pub proof fn lemma_without_first_come(times: Map<u128, Order>, seq: Seq<Resting>, price: Amount, id: u128)
    requires
        first_come(times, seq),
    ensures
        first_come(times, without(seq, price, id)),
        drawn(without(seq, price, id), seq, seq.len() as int),
    decreases seq.len(),
{
    reveal(Seq::filter);
    if seq.len() > 0 {
        let front = seq.drop_last();
        let n = seq.len() - 1;
        assert forall|i: int, j: int| 0 <= i < j < front.len() && front[i].price == front[j].price implies times[#[trigger] front[i].id].created_at
            <= times[#[trigger] front[j].id].created_at by {
            assert(front[i] == seq[i] && front[j] == seq[j]);
        }
        lemma_without_first_come(times, front, price, id);
        let sub = without(front, price, id);
        assert forall|a: int| 0 <= a < sub.len() implies exists|j: int|
            0 <= j < n && j < seq.len() && seq[j] == #[trigger] sub[a] by {
            let j = choose|j: int| 0 <= j < front.len() && front[j] == sub[a];
            assert(seq[j] == sub[a]);
        }
        assert(drawn(sub, seq, n));
        lemma_push_first_come(times, sub, seq, n);
        assert(seq[n] == seq.last());
    }
}

/// An entry that lands behind its price level keeps the level first come,
/// first served, if no order of the level was created after its own.
pub proof fn lemma_insert_first_come(times: Map<u128, Order>, seq: Seq<Resting>, side: OrderSide, e: Resting)
    requires
        ordered(seq, side),
        first_come(times, seq),
        forall|j: int|
            0 <= j < seq.len() && seq[j].price == e.price ==> times[#[trigger] seq[j].id].created_at
                <= times[e.id].created_at,
    ensures
        first_come(times, seq.insert(landing(seq, side, e.price, 0), e)),
{
    let p = landing(seq, side, e.price, 0);
    lemma_landing(seq, side, e.price, 0);
    let grown = seq.insert(p, e);
    assert forall|i: int, j: int| 0 <= i < j < grown.len() && grown[i].price == grown[j].price implies times[#[trigger] grown[i].id].created_at
        <= times[#[trigger] grown[j].id].created_at by {
        if j < p {
            assert(grown[i] == seq[i] && grown[j] == seq[j]);
        } else if j == p {
            assert(grown[i] == seq[i] && grown[j] == e);
        } else if i < p {
            assert(grown[i] == seq[i] && grown[j] == seq[j - 1]);
        } else if i == p {
            assert(grown[i] == e && grown[j] == seq[j - 1]);
            if j - 1 > p {
                assert(!worse(side, seq[p].price, seq[j - 1].price));
            }
        } else {
            assert(grown[i] == seq[i - 1] && grown[j] == seq[j - 1]);
        }
    }
}

/// Whether two stores agree on when the orders of the entries were created.
pub open spec fn same_times(one: Map<u128, Order>, other: Map<u128, Order>, seq: Seq<Resting>) -> bool {
    forall|i: int| 0 <= i < seq.len() ==> one[#[trigger] seq[i].id].created_at == other[seq[i].id].created_at
}

/// Entries are first come, first served by one store if they are by
/// another that agrees on the times of creation.
pub proof fn lemma_first_come_transfers(one: Map<u128, Order>, other: Map<u128, Order>, seq: Seq<Resting>)
    requires
        first_come(one, seq),
        same_times(one, other, seq),
    ensures
        first_come(other, seq),
{
    assert forall|i: int, j: int| 0 <= i < j < seq.len() && seq[i].price == seq[j].price implies other[#[trigger] seq[i].id].created_at
        <= other[#[trigger] seq[j].id].created_at by {
        assert(one[seq[i].id].created_at == other[seq[i].id].created_at);
        assert(one[seq[j].id].created_at == other[seq[j].id].created_at);
    }
}

} // verus!
