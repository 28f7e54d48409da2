use oxide_arbiter::{
    Amount, CreateOrderRequest, Order, OrderBookService, OrderSide, OrderStatus, OrderType, Resting,
    TimeInForce,
};
use rust_decimal::Decimal;
use std::str::FromStr;
use uuid::Uuid;

fn amount(text: &str) -> Amount {
    let number = Decimal::from_str(text).unwrap();
    Amount::from_parts(number.mantissa(), number.scale()).unwrap()
}

fn decimal(amount: Amount) -> Decimal {
    Decimal::new(amount.units, 8)
}

fn new_id() -> u128 {
    Uuid::new_v4().as_u128()
}

fn request(
    item_id: u128,
    order_side: OrderSide,
    order_type: OrderType,
    time_in_force: TimeInForce,
    price: Amount,
    quantity: Amount,
) -> CreateOrderRequest {
    CreateOrderRequest {
        item_id,
        user_id: new_id(),
        order_side,
        order_type,
        price,
        quantity,
        time_in_force,
    }
}

fn is_live(status: OrderStatus) -> bool {
    matches!(status, OrderStatus::Open | OrderStatus::PartiallyFilled)
}

fn check_book(book: &OrderBookService, items: &[u128]) {
    // every record is sound
    for (id, order) in book.get_orders() {
        assert_eq!(*id, order.id);
        assert!(0 <= order.quantity_filled.units);
        assert!(order.quantity_filled.units <= order.quantity.units);
        assert_eq!(
            order.status == OrderStatus::Closed,
            order.quantity_filled == order.quantity
        );
        if order.status == OrderStatus::Open {
            assert_eq!(order.quantity_filled.units, 0);
        }
        if order.status == OrderStatus::PartiallyFilled {
            assert!(order.quantity_filled.units > 0);
        }
        // a live order rests on the book, another one does not
        let side = book.resting_orders(order.item_id, order.order_side);
        let rests = side.iter().filter(|e| e.id == order.id).count();
        assert_eq!(rests, if is_live(order.status) { 1 } else { 0 });
    }
    for item in items {
        let bids = book.resting_orders(*item, OrderSide::Buy);
        let asks = book.resting_orders(*item, OrderSide::Sell);
        for pair in bids.windows(2) {
            assert!(pair[0].price.units >= pair[1].price.units);
        }
        for pair in asks.windows(2) {
            assert!(pair[0].price.units <= pair[1].price.units);
        }
        for (side, entries) in [(OrderSide::Buy, &bids), (OrderSide::Sell, &asks)] {
            for entry in entries.iter() {
                let order = book.get_order_by_id(entry.id).unwrap();
                assert!(is_live(order.status));
                assert_eq!(order.item_id, *item);
                assert_eq!(order.order_side, side);
                assert_eq!(order.price, entry.price);
            }
        }
        if let (Some(bid), Some(ask)) = (bids.first(), asks.first()) {
            assert!(bid.price.units < ask.price.units);
            assert_eq!(book.get_current_market_price(*item, OrderSide::Sell), Some(bid.price));
            assert_eq!(book.get_current_market_price(*item, OrderSide::Buy), Some(ask.price));
        }
    }
    // what every order has filled is what its trades add up to
    for (id, order) in book.get_orders() {
        let mut traded: i64 = 0;
        for trade in &book.trades {
            assert!(trade.quantity.units > 0);
            if trade.buy_order_id == *id || trade.sell_order_id == *id {
                traded += trade.quantity.units;
            }
        }
        assert_eq!(traded, order.quantity_filled.units);
    }
}

fn check_book_with_expiry(book: &OrderBookService, items: &[u128], now: i64) {
    for (id, order) in book.get_orders() {
        assert_eq!(*id, order.id);
        assert!(0 <= order.quantity_filled.units);
        assert!(order.quantity_filled.units <= order.quantity.units);
        assert_eq!(
            order.status == OrderStatus::Closed,
            order.quantity_filled == order.quantity
        );
        let side = book.resting_orders(order.item_id, order.order_side);
        let rests = side.iter().filter(|e| e.id == order.id).count();
        if is_live(order.status) {
            // only a day order whose day is over may have left the book
            if rests == 0 {
                assert_eq!(order.time_in_force, TimeInForce::DAY);
                assert!(order.expires_at.unwrap() < now);
            } else {
                assert_eq!(rests, 1);
            }
        } else {
            assert_eq!(rests, 0);
        }
    }
    for item in items {
        let bids = book.resting_orders(*item, OrderSide::Buy);
        let asks = book.resting_orders(*item, OrderSide::Sell);
        for pair in bids.windows(2) {
            assert!(pair[0].price.units >= pair[1].price.units);
            if pair[0].price == pair[1].price {
                let first = book.get_order_by_id(pair[0].id).unwrap();
                let second = book.get_order_by_id(pair[1].id).unwrap();
                assert!(first.created_at <= second.created_at);
            }
        }
        for pair in asks.windows(2) {
            assert!(pair[0].price.units <= pair[1].price.units);
            if pair[0].price == pair[1].price {
                let first = book.get_order_by_id(pair[0].id).unwrap();
                let second = book.get_order_by_id(pair[1].id).unwrap();
                assert!(first.created_at <= second.created_at);
            }
        }
        if let (Some(bid), Some(ask)) = (bids.first(), asks.first()) {
            assert!(bid.price.units < ask.price.units);
        }
    }
}

fn next(state: &mut u64) -> u64 {
    *state = state
        .wrapping_mul(6364136223846793005)
        .wrapping_add(1442695040888963407);
    *state >> 33
}

#[test]
fn order_stream_keeps_the_book_in_order() {
    let mut book = OrderBookService::new();
    let items = [11u128, 12u128];
    let mut state: u64 = 42;
    let mut ids: Vec<u128> = Vec::new();
    for step in 0..400i64 {
        let draw = next(&mut state);
        if draw % 5 == 0 && !ids.is_empty() {
            let id = ids[(next(&mut state) as usize) % ids.len()];
            let was_live = is_live(book.get_order_by_id(id).unwrap().status);
            assert_eq!(book.cancel_order_at(id, step), was_live);
            assert!(!book.cancel_order_at(id, step));
        } else {
            let order_side = if next(&mut state) % 2 == 0 { OrderSide::Buy } else { OrderSide::Sell };
            let time_in_force = match next(&mut state) % 4 {
                0 => TimeInForce::GTC,
                1 => TimeInForce::IOC,
                2 => TimeInForce::FOK,
                _ => TimeInForce::DAY,
            };
            let order_type = if next(&mut state) % 6 == 0 { OrderType::Market } else { OrderType::Limit };
            let create = CreateOrderRequest {
                item_id: items[(next(&mut state) % 2) as usize],
                user_id: next(&mut state) as u128,
                order_side,
                order_type,
                price: Amount { units: 95 + (next(&mut state) % 11) as i64 },
                quantity: Amount { units: 1 + (next(&mut state) % 40) as i64 },
                time_in_force,
            };
            let id = 1_000 + step as u128;
            let trades_before = book.trades.len();
            let result = book.add_order_with(create, id, step);
            match result {
                Ok(order) => {
                    ids.push(id);
                    assert_eq!(*book.get_order_by_id(id).unwrap(), order);
                    if time_in_force == TimeInForce::IOC {
                        assert_eq!(order.quantity, order.quantity_filled);
                        assert_eq!(order.status, OrderStatus::Closed);
                    }
                    if order.status == OrderStatus::Cancelled {
                        assert_eq!(time_in_force, TimeInForce::FOK);
                        assert_eq!(book.trades.len(), trades_before);
                    }
                    let mut total: i64 = 0;
                    for trade in &book.trades[trades_before..] {
                        assert_eq!(trade.timestamp, step);
                        assert_eq!(trade.item_id, create.item_id);
                        match order_side {
                            OrderSide::Buy => {
                                assert_eq!(trade.buy_order_id, id);
                                if order_type == OrderType::Limit {
                                    assert!(trade.price.units <= create.price.units);
                                }
                            }
                            OrderSide::Sell => {
                                assert_eq!(trade.sell_order_id, id);
                                if order_type == OrderType::Limit {
                                    assert!(trade.price.units >= create.price.units);
                                }
                            }
                        }
                        total += trade.quantity.units;
                    }
                    assert_eq!(total, order.quantity_filled.units);
                }
                Err(_) => {
                    assert_eq!(order_type, OrderType::Market);
                    assert!(book.get_order_by_id(id).is_none());
                    assert_eq!(book.trades.len(), trades_before);
                }
            }
        }
        check_book(&book, &items);
    }
    assert!(book.trades.len() > 20);
}

#[test]
fn first_order_at_a_price_is_matched_first() {
    let mut book = OrderBookService::new();
    let item = new_id();
    let first = book
        .add_order(request(item, OrderSide::Sell, OrderType::Limit, TimeInForce::GTC, amount("10"), amount("5")))
        .unwrap();
    let second = book
        .add_order(request(item, OrderSide::Sell, OrderType::Limit, TimeInForce::GTC, amount("10"), amount("5")))
        .unwrap();
    let buy = book
        .add_order(request(item, OrderSide::Buy, OrderType::Limit, TimeInForce::GTC, amount("10"), amount("1")))
        .unwrap();
    assert_eq!(book.trades.len(), 1);
    assert_eq!(book.trades[0].sell_order_id, first.id);
    assert_eq!(book.trades[0].buy_order_id, buy.id);
    assert_eq!(book.get_order_by_id(first.id).unwrap().quantity_filled, amount("1"));
    assert_eq!(book.get_order_by_id(first.id).unwrap().status, OrderStatus::PartiallyFilled);
    assert_eq!(book.get_order_by_id(second.id).unwrap().quantity_filled, amount("0"));
    assert_eq!(book.get_order_by_id(second.id).unwrap().status, OrderStatus::Open);
    assert_eq!(
        book.resting_orders(item, OrderSide::Sell),
        vec![
            Resting { price: amount("10"), id: first.id },
            Resting { price: amount("10"), id: second.id }
        ]
    );
}

#[test]
fn better_price_is_matched_before_an_earlier_order() {
    let mut book = OrderBookService::new();
    let item = new_id();
    let dear = book
        .add_order(request(item, OrderSide::Sell, OrderType::Limit, TimeInForce::GTC, amount("12"), amount("5")))
        .unwrap();
    let cheap = book
        .add_order(request(item, OrderSide::Sell, OrderType::Limit, TimeInForce::GTC, amount("11"), amount("5")))
        .unwrap();
    let middle = book
        .add_order(request(item, OrderSide::Sell, OrderType::Limit, TimeInForce::GTC, amount("11.5"), amount("5")))
        .unwrap();
    assert_eq!(
        book.resting_orders(item, OrderSide::Sell),
        vec![
            Resting { price: amount("11"), id: cheap.id },
            Resting { price: amount("11.5"), id: middle.id },
            Resting { price: amount("12"), id: dear.id }
        ]
    );
    book.add_order(request(item, OrderSide::Buy, OrderType::Limit, TimeInForce::GTC, amount("12"), amount("12")))
        .unwrap();
    assert_eq!(book.trades.len(), 3);
    assert_eq!(book.trades[0].sell_order_id, cheap.id);
    assert_eq!(book.trades[0].quantity, amount("5"));
    assert_eq!(book.trades[1].sell_order_id, middle.id);
    assert_eq!(book.trades[1].quantity, amount("5"));
    assert_eq!(book.trades[2].sell_order_id, dear.id);
    assert_eq!(book.trades[2].quantity, amount("2"));
    assert_eq!(
        book.resting_orders(item, OrderSide::Sell),
        vec![Resting { price: amount("12"), id: dear.id }]
    );
}

#[test]
fn bids_are_matched_highest_first() {
    let mut book = OrderBookService::new();
    let item = new_id();
    let low = book
        .add_order(request(item, OrderSide::Buy, OrderType::Limit, TimeInForce::GTC, amount("9"), amount("5")))
        .unwrap();
    let high = book
        .add_order(request(item, OrderSide::Buy, OrderType::Limit, TimeInForce::GTC, amount("10"), amount("5")))
        .unwrap();
    let late = book
        .add_order(request(item, OrderSide::Buy, OrderType::Limit, TimeInForce::GTC, amount("10"), amount("5")))
        .unwrap();
    assert_eq!(
        book.resting_orders(item, OrderSide::Buy),
        vec![
            Resting { price: amount("10"), id: high.id },
            Resting { price: amount("10"), id: late.id },
            Resting { price: amount("9"), id: low.id }
        ]
    );
    let sell = book
        .add_order(request(item, OrderSide::Sell, OrderType::Limit, TimeInForce::GTC, amount("9.5"), amount("12")))
        .unwrap();
    assert_eq!(book.trades.len(), 2);
    assert_eq!(book.trades[0].buy_order_id, high.id);
    assert_eq!(book.trades[1].buy_order_id, late.id);
    assert_eq!(book.trades[0].price, amount("10"));
    assert_eq!(sell.status, OrderStatus::PartiallyFilled);
    assert_eq!(sell.quantity_filled, amount("10"));
    assert_eq!(
        book.resting_orders(item, OrderSide::Sell),
        vec![Resting { price: amount("9.5"), id: sell.id }]
    );
    assert_eq!(
        book.resting_orders(item, OrderSide::Buy),
        vec![Resting { price: amount("9"), id: low.id }]
    );
}

#[test]
fn trade_executes_at_the_resting_price() {
    let mut book = OrderBookService::new();
    let item = new_id();
    book.add_order(request(item, OrderSide::Sell, OrderType::Limit, TimeInForce::GTC, amount("9"), amount("1")))
        .unwrap();
    let buy = book
        .add_order(request(item, OrderSide::Buy, OrderType::Limit, TimeInForce::GTC, amount("10"), amount("1")))
        .unwrap();
    assert_eq!(book.trades.len(), 1);
    assert_eq!(decimal(book.trades[0].price), Decimal::from_str("9").unwrap());
    assert_eq!(buy.price, amount("10"));
}

#[test]
fn killed_order_leaves_every_record_as_it_was() {
    let mut book = OrderBookService::new();
    let item = new_id();
    for (id, price, quantity) in [(1u128, "10", "5"), (2, "10", "5"), (3, "11", "5"), (4, "13", "50")] {
        book.add_order_with(
            request(item, OrderSide::Sell, OrderType::Limit, TimeInForce::GTC, amount(price), amount(quantity)),
            id,
            id as i64,
        )
        .unwrap();
    }
    book.add_order_with(
        request(item, OrderSide::Buy, OrderType::Limit, TimeInForce::GTC, amount("10"), amount("3")),
        5,
        5,
    )
    .unwrap();
    let records: Vec<Order> = (1..=5u128).map(|id| *book.get_order_by_id(id).unwrap()).collect();
    let asks = book.resting_orders(item, OrderSide::Sell);
    let bids = book.resting_orders(item, OrderSide::Buy);
    let trades = book.trades.clone();
    // 12 units are on offer up to 12, the order wants 13
    let fok = book
        .add_order_with(
            request(item, OrderSide::Buy, OrderType::Limit, TimeInForce::FOK, amount("12"), amount("13")),
            6,
            6,
        )
        .unwrap();
    assert_eq!(fok.status, OrderStatus::Cancelled);
    assert_eq!(fok.quantity_filled, amount("0"));
    assert_eq!(fok.quantity, amount("13"));
    let after: Vec<Order> = (1..=5u128).map(|id| *book.get_order_by_id(id).unwrap()).collect();
    assert_eq!(after, records);
    assert_eq!(book.resting_orders(item, OrderSide::Sell), asks);
    assert_eq!(book.resting_orders(item, OrderSide::Buy), bids);
    assert_eq!(book.trades, trades);
    assert_eq!(book.get_orders().len(), 6);
}

#[test]
fn every_committed_fill_is_one_trade() {
    let mut book = OrderBookService::new();
    let item = new_id();
    for id in 1..=4u128 {
        book.add_order_with(
            request(item, OrderSide::Buy, OrderType::Limit, TimeInForce::GTC, amount("10"), amount("2")),
            id,
            id as i64,
        )
        .unwrap();
    }
    let sell = book
        .add_order_with(
            request(item, OrderSide::Sell, OrderType::Limit, TimeInForce::GTC, amount("10"), amount("5")),
            9,
            9,
        )
        .unwrap();
    assert_eq!(sell.status, OrderStatus::Closed);
    assert_eq!(book.trades.len(), 3);
    let quantities: Vec<Amount> = book.trades.iter().map(|t| t.quantity).collect();
    assert_eq!(quantities, vec![amount("2"), amount("2"), amount("1")]);
    let buyers: Vec<u128> = book.trades.iter().map(|t| t.buy_order_id).collect();
    assert_eq!(buyers, vec![1, 2, 3]);
    assert_eq!(book.get_order_by_id(3).unwrap().quantity_filled, amount("1"));
    assert_eq!(book.get_order_by_id(4).unwrap().quantity_filled, amount("0"));
}

#[test]
fn order_stream_with_expiring_day_orders_keeps_the_book_in_order() {
    let mut book = OrderBookService::new();
    let items = [21u128, 22u128];
    let mut state: u64 = 7;
    let mut dropped = 0;
    for step in 0..400i64 {
        // a third of a day passes between two orders
        let now = step * 28_800_000_000;
        let order_side = if next(&mut state) % 2 == 0 { OrderSide::Buy } else { OrderSide::Sell };
        let time_in_force = if next(&mut state) % 3 == 0 { TimeInForce::GTC } else { TimeInForce::DAY };
        let create = CreateOrderRequest {
            item_id: items[(next(&mut state) % 2) as usize],
            user_id: 1,
            order_side,
            order_type: OrderType::Limit,
            price: Amount { units: 90 + (next(&mut state) % 21) as i64 },
            quantity: Amount { units: 1 + (next(&mut state) % 40) as i64 },
            time_in_force,
        };
        let opposite = match order_side {
            OrderSide::Buy => OrderSide::Sell,
            OrderSide::Sell => OrderSide::Buy,
        };
        let before = book.resting_orders(create.item_id, opposite);
        let order = book.add_order_with(create, 5_000 + step as u128, now).unwrap();
        assert_eq!(order.created_at, now);
        let after = book.resting_orders(create.item_id, opposite);
        for entry in before {
            if !after.contains(&entry) {
                let record = book.get_order_by_id(entry.id).unwrap();
                if record.status != OrderStatus::Closed {
                    dropped += 1;
                }
            }
        }
        check_book_with_expiry(&book, &items, now);
    }
    assert!(dropped > 0);
}
