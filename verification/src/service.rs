//! The order book service: the order store, the price-level index and the
//! trade log, and the operations that callers see.

use vstd::prelude::*;
use std::collections::HashMap;
use crate::admission::{
    add_order_result, admitted_price, cancellable, cancelled, lookup, price_set, quantity_set,
    reference_price, rejection, status_set, with_record, DAY_MICROS,
};
use crate::amount::Amount;
use crate::consistency::in_order;
use crate::dto::{CreateOrderRequest, Order, OrderSide, OrderStatus, OrderType, TimeInForce, Trade};
use crate::index::{IndexView, PriceLevelIndex, Resting};
use crate::laws::{
    add_order_keeps, law_add_order_keeps_arrival_order, law_add_order_keeps_live_orders_resting,
    law_add_order_keeps_order, law_cancel_keeps_arrival_order,
    law_cancel_keeps_live_orders_resting, law_cancel_keeps_order, law_immediate_order_is_trimmed,
    admission_drops_expired,
};
use crate::matching::{
    appended, crosses, expired, filled_by, is_live, opposite, settle, step, store_after, trade_of,
    walk, Fill, Staged,
};
use crate::outside::{clock_micros, fresh_id, record_mut};
use crate::proofs::{arrives, lemma_settle_in_order};
use crate::rejection::Rejection;

verus! {

/// The model of a service: the records of the order store by identifier,
/// the price-level index, and the trade log, oldest trade first.
pub struct BookView {
    pub orders: Map<u128, Order>,
    pub index: IndexView,
    pub trades: Seq<Trade>,
}

/// An in-memory order book with its matching engine.
pub struct OrderBookService {
    orders: HashMap<u128, Order>,
    index: PriceLevelIndex,
    /// All trades executed since the service was created, oldest first.
    pub trades: Vec<Trade>,
}

impl View for OrderBookService {
    type V = BookView;

    closed spec fn view(&self) -> BookView {
        BookView { orders: self.orders@, index: self.index@, trades: self.trades@ }
    }
}

/// What a walk has staged, as the engine holds it.
struct Staging {
    fills: Vec<Fill>,
    kept: Vec<Resting>,
    filled: i64,
    halted: bool,
}

impl View for Staging {
    type V = Staged;

    closed spec fn view(&self) -> Staged {
        Staged { fills: self.fills@, kept: self.kept@, filled: self.filled as int, halted: self.halted }
    }
}

/// The side an order trades against.
pub fn opposite_side(side: OrderSide) -> (r: OrderSide)
    ensures
        r == opposite(side),
{
    match side {
        OrderSide::Buy => OrderSide::Sell,
        OrderSide::Sell => OrderSide::Buy,
    }
}

/// Whether a day order has outlived its day at time `now`.
fn is_expired(order: &Order, now: i64) -> (r: bool)
    ensures
        r == expired(*order, now),
{
    match order.time_in_force {
        TimeInForce::DAY => match order.expires_at {
            Some(at) => at < now,
            None => false,
        },
        _ => false,
    }
}

/// Whether a status is open or partially filled.
fn live(status: OrderStatus) -> (r: bool)
    ensures
        r == is_live(status),
{
    match status {
        OrderStatus::Open => true,
        OrderStatus::PartiallyFilled => true,
        _ => false,
    }
}

/// Whether `incoming` is a newcomer to a book that is in order without it:
/// the store holds it as given, open with a quantity and nothing filled,
/// and apart from it the store and the index are in order.
pub open spec fn newcomer(book: BookView, incoming: Order) -> bool {
    &&& book.orders.contains_key(incoming.id)
    &&& book.orders[incoming.id] == incoming
    &&& arrives(book.orders.remove(incoming.id), incoming)
    &&& in_order(book.orders.remove(incoming.id), book.index)
}

impl OrderBookService {
    /// A service without orders and without trades.
    pub fn new() -> (s: OrderBookService)
        ensures
            s@ == (BookView { orders: Map::empty(), index: IndexView::empty(), trades: Seq::empty() }),
            s@.consistent(),
            s@.complete(),
            s@.arrival_ordered(),
    {
        OrderBookService { orders: HashMap::new(), index: PriceLevelIndex::new(), trades: Vec::new() }
    }

    /// The crossing test: a market order trades with any resting order, a
    /// limit buy with one priced at or below it, a limit sell with one
    /// priced at or above it.
    pub fn can_match_price(&self, incoming: &Order, resting: &Order) -> (r: bool)
        ensures
            r == crosses(*incoming, *resting),
    {
        match incoming.order_type {
            OrderType::Market => true,
            OrderType::Limit => match incoming.order_side {
                OrderSide::Buy => incoming.price.units >= resting.price.units,
                OrderSide::Sell => incoming.price.units <= resting.price.units,
            },
        }
    }

    /// The fill routine: the record of `order` after `quantity` more units
    /// of it are filled at time `now`.
    pub fn fill_order(order: Order, quantity: Amount, now: i64) -> (r: Order)
        requires
            i64::MIN <= order.quantity_filled.units + quantity.units <= i64::MAX,
        ensures
            r == filled_by(order, quantity.units as int, now),
    {
        let filled: i64 = order.quantity_filled.units + quantity.units;
        let mut r = order;
        r.quantity_filled = Amount { units: filled };
        r.status = if filled >= order.quantity.units {
            OrderStatus::Closed
        } else {
            OrderStatus::PartiallyFilled
        };
        r.updated_at = now;
        r
    }

    /// Walks `book` for `incoming` and stages the result; neither the store
    /// nor the index nor the trade log is touched.
    fn stage(&self, book: &Vec<Resting>, incoming: &Order, now: i64) -> (st: Staging)
        ensures
            st@ == walk(self@.orders, book@, *incoming, now, book@.len() as int),
            0 <= st.filled,
            st.filled > 0 ==> st.filled <= incoming.quantity.units,
    {
        let mut st = Staging { fills: Vec::new(), kept: Vec::new(), filled: 0, halted: false };
        let mut i: usize = 0;
        while i < book.len()
            invariant
                0 <= i <= book.len(),
                st@ == walk(self@.orders, book@, *incoming, now, i as int),
                0 <= st.filled,
                st.filled > 0 ==> st.filled <= incoming.quantity.units,
            decreases book.len() - i,
        {
            let e = book[i];
            let ghost before = st@;
            if st.halted || st.filled >= incoming.quantity.units {
                st.kept.push(e);
            } else {
                match self.orders.get(&e.id) {
                    None => {
                        st.kept.push(e);
                    },
                    Some(resting) => {
                        let free: i128 = resting.quantity.units as i128 - resting.quantity_filled.units as i128;
                        if is_expired(resting, now) {
                        } else if !self.can_match_price(incoming, resting) {
                            st.kept.push(e);
                            st.halted = true;
                        } else if free <= 0 {
                            st.kept.push(e);
                        } else {
                            let left: i64 = incoming.quantity.units - st.filled;
                            let quantity: i64 = if free <= left as i128 {
                                free as i64
                            } else {
                                left
                            };
                            let after = Self::fill_order(*resting, Amount { units: quantity }, now);
                            st.fills.push(Fill { price: e.price, quantity: Amount { units: quantity }, resting: after });
                            match after.status {
                                OrderStatus::Closed => {},
                                _ => {
                                    st.kept.push(e);
                                },
                            }
                            st.filled = st.filled + quantity;
                        }
                    },
                }
            }
            i += 1;
            assert(st@ == step(self@.orders, *incoming, now, before, e));
        }
        st
    }

    /// Matches `incoming` against the other side of its item's book at time
    /// `now` and settles the result. The order is expected as admission
    /// leaves it: open, with nothing filled.
    ///
    /// The walk only stages. A fill-or-kill order that cannot fill
    /// completely is cancelled and the book and the trade log stay as they
    /// were. Otherwise each staged fill is applied to its resting order and
    /// logged as a trade, the entries of closed and of expired orders leave
    /// the book, an immediate-or-cancel order is trimmed and closed, and an
    /// order that is still live rests on its own side.
    pub fn execute_order_matching_at(&mut self, incoming: &mut Order, now: i64)
        requires
            old(incoming).quantity_filled.units == 0,
            old(incoming).status == OrderStatus::Open,
        ensures
            ({
                let out = settle(old(self)@.orders, old(self)@.index, *old(incoming), now);
                &&& final(self)@.orders == out.orders
                &&& final(self)@.index == out.index
                &&& *final(incoming) == out.order
                &&& appended(old(self)@.trades, final(self)@.trades, out.fills, *old(incoming), now)
            }),
            newcomer(old(self)@, *old(incoming)) ==> final(self)@.consistent(),
    {
        let ghost arriving = *incoming;
        proof {
            if newcomer(old(self)@, arriving) {
                let others = old(self)@.orders.remove(arriving.id);
                assert(others.insert(arriving.id, arriving) =~= old(self)@.orders);
                lemma_settle_in_order(others, old(self)@.index, arriving, now);
            }
        }
        let side = opposite_side(incoming.order_side);
        let book = self.index.walk(incoming.item_id, side);
        let st = self.stage(&book, incoming, now);
        let kill = match incoming.time_in_force {
            TimeInForce::FOK => st.filled < incoming.quantity.units,
            _ => false,
        };
        if kill {
            incoming.status = OrderStatus::Cancelled;
            incoming.updated_at = now;
            self.orders.insert(incoming.id, *incoming);
            assert(self@.trades.take(old(self)@.trades.len() as int) =~= old(self)@.trades);
        } else {
            let mut i: usize = 0;
            while i < st.fills.len()
                invariant
                    0 <= i <= st.fills.len(),
                    *incoming == arriving,
                    self.index@ == old(self).index@,
                    self.orders@ == store_after(old(self).orders@, st.fills@, i as int),
                    self.trades@.len() == old(self).trades@.len() + i,
                    self.trades@.take(old(self).trades@.len() as int) == old(self).trades@,
                    forall|k: int|
                        0 <= k < i ==> #[trigger] self.trades@[old(self).trades@.len() + k] == trade_of(
                            st.fills@[k],
                            arriving,
                            now,
                            self.trades@[old(self).trades@.len() + k].id,
                        ),
                decreases st.fills.len() - i,
            {
                let fill = st.fills[i];
                self.orders.insert(fill.resting.id, fill.resting);
                let trade = Trade {
                    id: fresh_id(),
                    buy_order_id: match incoming.order_side {
                        OrderSide::Buy => incoming.id,
                        OrderSide::Sell => fill.resting.id,
                    },
                    sell_order_id: match incoming.order_side {
                        OrderSide::Sell => incoming.id,
                        OrderSide::Buy => fill.resting.id,
                    },
                    item_id: incoming.item_id,
                    quantity: fill.quantity,
                    price: fill.price,
                    timestamp: now,
                };
                let ghost logged = self.trades@;
                self.trades.push(trade);
                assert(self.trades@.take(old(self).trades@.len() as int) =~= logged.take(
                    old(self).trades@.len() as int,
                ));
                i += 1;
            }
            proof {
                let base = old(self).trades@.len() as int;
                let added = self.trades@.skip(base);
                assert forall|k: int| 0 <= k < st.fills@.len() implies #[trigger] added[k] == trade_of(
                    st.fills@[k],
                    arriving,
                    now,
                    added[k].id,
                ) by {
                    assert(added[k] == self.trades@[base + k]);
                }
            }
            self.index.replace(incoming.item_id, side, st.kept);
            if st.filled > 0 {
                *incoming = Self::fill_order(*incoming, Amount { units: st.filled }, now);
            }
            match incoming.time_in_force {
                TimeInForce::IOC => {
                    incoming.quantity = incoming.quantity_filled;
                    incoming.status = OrderStatus::Closed;
                    incoming.updated_at = now;
                },
                _ => {},
            }
            self.orders.insert(incoming.id, *incoming);
            if live(incoming.status) {
                self.index.insert(incoming.item_id, incoming.order_side, incoming.price, incoming.id);
            }
        }
    }

    /// Matches `incoming` as [`Self::execute_order_matching_at`] does, at
    /// the time the clock shows.
    pub fn execute_order_matching(&mut self, incoming: &mut Order)
        requires
            old(incoming).quantity_filled.units == 0,
            old(incoming).status == OrderStatus::Open,
        ensures
            exists|now: i64|
                {
                    let out = #[trigger] settle(old(self)@.orders, old(self)@.index, *old(incoming), now);
                    &&& final(self)@.orders == out.orders
                    &&& final(self)@.index == out.index
                    &&& *final(incoming) == out.order
                    &&& appended(old(self)@.trades, final(self)@.trades, out.fills, *old(incoming), now)
                },
            newcomer(old(self)@, *old(incoming)) ==> final(self)@.consistent(),
    {
        let now = clock_micros();
        self.execute_order_matching_at(incoming, now);
    }

    /// The orders that rest on one side of an item's book, in the order in
    /// which they match: best price first and, within a price, the earlier
    /// arrival first.
    pub fn resting_orders(&self, item_id: u128, order_side: OrderSide) -> (r: Vec<Resting>)
        ensures
            r@ == self@.index.resting(item_id, order_side),
    {
        self.index.walk(item_id, order_side)
    }

    /// The price a market order on `order_side` is held against: the best
    /// resting price of the other side, the lowest ask for a buy and the
    /// highest bid for a sell; none where nothing rests there.
    pub fn get_current_market_price(&self, item_id: u128, order_side: OrderSide) -> (r: Option<Amount>)
        ensures
            r == reference_price(self@, item_id, order_side),
    {
        self.index.best(item_id, opposite_side(order_side))
    }

    /// Validates a request against the book: the checks run in order and
    /// the first that fails gives the rejection. A request that passes gets
    /// the price its order will carry.
    pub fn check(&self, request: &CreateOrderRequest, id: u128) -> (r: Result<Amount, Rejection>)
        ensures
            r == match rejection(self@, *request, id) {
                Some(why) => Err::<Amount, Rejection>(why),
                None => Ok::<Amount, Rejection>(admitted_price(self@, *request)),
            },
    {
        if request.price.units < 0 {
            return Err(Rejection::NegativePrice);
        }
        if request.quantity.units <= 0 {
            return Err(Rejection::NoQuantity);
        }
        let mut price = request.price;
        match request.order_type {
            OrderType::Market => {
                match self.get_current_market_price(request.item_id, request.order_side) {
                    None => {
                        return Err(Rejection::NoReferencePrice);
                    },
                    Some(market) => {
                        let away: i128 = match request.order_side {
                            OrderSide::Buy => market.units as i128 - request.price.units as i128,
                            OrderSide::Sell => request.price.units as i128 - market.units as i128,
                        };
                        if away > 0 && 100 * away > 5 * (request.price.units as i128) {
                            return Err(Rejection::Slippage { market, price: request.price });
                        }
                        price = market;
                    },
                }
            },
            OrderType::Limit => {},
        }
        if self.orders.contains_key(&id) {
            return Err(Rejection::DuplicateId);
        }
        Ok(price)
    }

    /// Adds an order under the identifier `id` at time `now`: validates the
    /// request, prices a market order at the reference price, stores the
    /// order, matches it and returns it as matching leaves it.
    pub fn add_order_with(&mut self, request: CreateOrderRequest, id: u128, now: i64) -> (r: Result<
        Order,
        String,
    >)
        ensures
            add_order_result(old(self)@, final(self)@, request, id, now, r),
            add_order_keeps(old(self)@, final(self)@, request, id, now),
            request.time_in_force == TimeInForce::IOC ==> match r {
                Ok(order) => order.quantity == order.quantity_filled && order.status == OrderStatus::Closed,
                Err(_) => true,
            },
    {
        let r = self.add_order_inner(request, id, now);
        proof {
            if old(self)@.consistent() {
                if old(self)@.arrival_ordered() && old(self)@.no_later_than(now) {
                    law_add_order_keeps_arrival_order(old(self)@, self@, request, id, now, r);
                }
                law_add_order_keeps_order(old(self)@, self@, request, id, now, r);
                if old(self)@.complete() && !admission_drops_expired(old(self)@, request, id, now) {
                    law_add_order_keeps_live_orders_resting(old(self)@, self@, request, id, now, r);
                }
            }
            if request.time_in_force == TimeInForce::IOC && rejection(old(self)@, request, id) is None {
                law_immediate_order_is_trimmed(old(self)@, request, id, now);
            }
        }
        r
    }

    /// Validates, stores, matches and settles; the work of
    /// [`Self::add_order_with`].
    fn add_order_inner(&mut self, request: CreateOrderRequest, id: u128, now: i64) -> (r: Result<
        Order,
        String,
    >)
        ensures
            add_order_result(old(self)@, final(self)@, request, id, now, r),
    {
        match self.check(&request, id) {
            Err(why) => Err(why.message()),
            Ok(price) => {
                let expires_at = match request.time_in_force {
                    TimeInForce::DAY => Some(
                        if now <= i64::MAX - DAY_MICROS {
                            now + DAY_MICROS
                        } else {
                            i64::MAX
                        },
                    ),
                    TimeInForce::IOC => Some(now),
                    _ => None,
                };
                let mut order = Order {
                    id,
                    item_id: request.item_id,
                    user_id: request.user_id,
                    order_side: request.order_side,
                    order_type: request.order_type,
                    time_in_force: request.time_in_force,
                    price,
                    quantity: request.quantity,
                    quantity_filled: Amount { units: 0 },
                    status: OrderStatus::Open,
                    created_at: now,
                    updated_at: now,
                    expires_at,
                };
                self.orders.insert(id, order);
                self.execute_order_matching_at(&mut order, now);
                Ok(order)
            },
        }
    }

    /// Adds an order under a fresh random identifier, at the time the clock
    /// shows.
    pub fn add_order(&mut self, create_order_request: CreateOrderRequest) -> (r: Result<Order, String>)
        ensures
            exists|id: u128, now: i64|
                add_order_result(old(self)@, final(self)@, create_order_request, id, now, r)
                    && add_order_keeps(old(self)@, final(self)@, create_order_request, id, now),
            old(self)@.consistent() ==> final(self)@.consistent(),
            create_order_request.time_in_force == TimeInForce::IOC ==> match r {
                Ok(order) => order.quantity == order.quantity_filled && order.status == OrderStatus::Closed,
                Err(_) => true,
            },
    {
        let id = fresh_id();
        let now = clock_micros();
        self.add_order_with(create_order_request, id, now)
    }

    /// All orders the service has admitted, by identifier.
    pub fn get_orders(&self) -> (r: &HashMap<u128, Order>)
        ensures
            r@ == self@.orders,
    {
        &self.orders
    }

    /// The record of one order, if the store has it.
    pub fn get_order_by_id(&self, order_id: u128) -> (r: Option<&Order>)
        ensures
            r == match lookup(self@, order_id) {
                Some(order) => Some(&order),
                None => None,
            },
    {
        self.orders.get(&order_id)
    }

    /// A handle to change the record of one order in place, if the store
    /// has it. The index and the trade log stay as they are, and the store
    /// ends up with whatever the caller leaves in the record.
    pub fn get_mutable_order_by_id(&mut self, order_id: u128) -> (r: Option<&mut Order>)
        ensures
            match r {
                Some(order) => lookup(old(self)@, order_id) == Some(*order) && final(self)@ == with_record(
                    old(self)@,
                    order_id,
                    *final(order),
                ),
                None => lookup(old(self)@, order_id) is None && final(self)@ == old(self)@,
            },
    {
        record_mut(&mut self.orders, order_id)
    }

    /// Takes the order out of the level it rests in, going by the item,
    /// side and price of its record. An order the store does not know
    /// leaves the book as it is.
    fn remove_from_book(&mut self, order_id: u128)
        ensures
            final(self)@ == match lookup(old(self)@, order_id) {
                Some(order) => BookView {
                    index: old(self)@.index.remove(order.item_id, order.order_side, order.price, order_id),
                    ..old(self)@
                },
                None => old(self)@,
            },
    {
        let order = match self.orders.get(&order_id) {
            Some(order) => *order,
            None => {
                return ;
            },
        };
        self.index.remove(order.item_id, order.order_side, order.price, order_id);
    }

    /// Cancels an order at time `now` if it is known and still live: the
    /// order is marked and leaves the book. Says whether it did.
    pub fn cancel_order_at(&mut self, order_id: u128, now: i64) -> (r: bool)
        ensures
            r == cancellable(old(self)@, order_id),
            final(self)@ == cancelled(old(self)@, order_id, now),
            old(self)@.consistent() ==> final(self)@.consistent(),
            old(self)@.consistent() && old(self)@.complete() ==> final(self)@.complete(),
            old(self)@.consistent() && old(self)@.arrival_ordered() ==> final(self)@.arrival_ordered(),
    {
        proof {
            if old(self)@.consistent() {
                if old(self)@.arrival_ordered() {
                    law_cancel_keeps_arrival_order(old(self)@, order_id, now);
                }
                law_cancel_keeps_order(old(self)@, order_id, now);
                if old(self)@.complete() {
                    law_cancel_keeps_live_orders_resting(old(self)@, order_id, now);
                }
            }
        }
        let mut order = match self.orders.get(&order_id) {
            Some(order) => *order,
            None => {
                return false;
            },
        };
        if !live(order.status) {
            return false;
        }
        self.remove_from_book(order_id);
        order.status = OrderStatus::Cancelled;
        order.updated_at = now;
        self.orders.insert(order_id, order);
        true
    }

    /// Cancels an order as [`Self::cancel_order_at`] does, at the time the
    /// clock shows.
    pub fn cancel_order(&mut self, order_id: u128) -> (r: bool)
        ensures
            r == cancellable(old(self)@, order_id),
            exists|now: i64| final(self)@ == #[trigger] cancelled(old(self)@, order_id, now),
            old(self)@.consistent() ==> final(self)@.consistent(),
            old(self)@.consistent() && old(self)@.complete() ==> final(self)@.complete(),
            old(self)@.consistent() && old(self)@.arrival_ordered() ==> final(self)@.arrival_ordered(),
    {
        let now = clock_micros();
        self.cancel_order_at(order_id, now)
    }

    /// Sets the status of an order at time `now` and returns the record.
    /// The order is not matched again and keeps its place in the index.
    pub fn update_order_status_at(&mut self, order_id: u128, new_status: OrderStatus, now: i64) -> (r:
        Option<&Order>)
        ensures
            final(self)@ == status_set(old(self)@, order_id, new_status, now),
            r == match lookup(final(self)@, order_id) {
                Some(order) => Some(&order),
                None => None,
            },
    {
        match self.orders.get(&order_id) {
            Some(order) => {
                let mut order = *order;
                order.status = new_status;
                order.updated_at = now;
                self.orders.insert(order_id, order);
            },
            None => {},
        }
        self.orders.get(&order_id)
    }

    /// Sets the status of an order as [`Self::update_order_status_at`]
    /// does, at the time the clock shows.
    pub fn update_order_status(&mut self, order_id: u128, new_status: OrderStatus) -> (r: Option<&Order>)
        ensures
            exists|now: i64| final(self)@ == #[trigger] status_set(old(self)@, order_id, new_status, now),
            r == match lookup(final(self)@, order_id) {
                Some(order) => Some(&order),
                None => None,
            },
    {
        let now = clock_micros();
        self.update_order_status_at(order_id, new_status, now)
    }

    /// Sets the quantity of an order at time `now` and returns the record.
    /// The order is not matched again and keeps its place in the index.
    pub fn update_order_quantity_at(&mut self, order_id: u128, new_quantity: Amount, now: i64) -> (r:
        Option<&Order>)
        ensures
            final(self)@ == quantity_set(old(self)@, order_id, new_quantity, now),
            r == match lookup(final(self)@, order_id) {
                Some(order) => Some(&order),
                None => None,
            },
    {
        match self.orders.get(&order_id) {
            Some(order) => {
                let mut order = *order;
                order.quantity = new_quantity;
                order.updated_at = now;
                self.orders.insert(order_id, order);
            },
            None => {},
        }
        self.orders.get(&order_id)
    }

    /// Sets the quantity of an order as [`Self::update_order_quantity_at`]
    /// does, at the time the clock shows.
    pub fn update_order_quantity(&mut self, order_id: u128, new_quantity: Amount) -> (r: Option<&Order>)
        ensures
            exists|now: i64| final(self)@ == #[trigger] quantity_set(old(self)@, order_id, new_quantity, now),
            r == match lookup(final(self)@, order_id) {
                Some(order) => Some(&order),
                None => None,
            },
    {
        let now = clock_micros();
        self.update_order_quantity_at(order_id, new_quantity, now)
    }

    /// Sets the price in the record of an order at time `now` and returns
    /// the record. The order is not matched again and stays in the level
    /// of its old price: to move it, cancel it and add it anew.
    pub fn update_order_price_at(&mut self, order_id: u128, new_price: Amount, now: i64) -> (r: Option<
        &Order,
    >)
        ensures
            final(self)@ == price_set(old(self)@, order_id, new_price, now),
            r == match lookup(final(self)@, order_id) {
                Some(order) => Some(&order),
                None => None,
            },
    {
        match self.orders.get(&order_id) {
            Some(order) => {
                let mut order = *order;
                order.price = new_price;
                order.updated_at = now;
                self.orders.insert(order_id, order);
            },
            None => {},
        }
        self.orders.get(&order_id)
    }

    /// Sets the price in the record of an order as
    /// [`Self::update_order_price_at`] does, at the time the clock shows.
    pub fn update_order_price(&mut self, order_id: u128, new_price: Amount) -> (r: Option<&Order>)
        ensures
            exists|now: i64| final(self)@ == #[trigger] price_set(old(self)@, order_id, new_price, now),
            r == match lookup(final(self)@, order_id) {
                Some(order) => Some(&order),
                None => None,
            },
    {
        let now = clock_micros();
        self.update_order_price_at(order_id, new_price, now)
    }
}

} // verus!
