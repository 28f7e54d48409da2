use oxide_arbiter::{
    Amount, CreateOrderRequest, Order, OrderBookService, OrderSide, OrderStatus, OrderType, Resting,
    TimeInForce,
};
use rust_decimal::Decimal;
use std::str::FromStr;
use uuid::Uuid;

fn amount(text: &str) -> Amount {
    let number = Decimal::from_str(text).unwrap();
    Amount::from_parts(number.mantissa(), number.scale()).unwrap()
}

fn decimal(amount: Amount) -> Decimal {
    Decimal::new(amount.units, 8)
}

fn new_id() -> u128 {
    Uuid::new_v4().as_u128()
}

fn request(
    item_id: u128,
    order_side: OrderSide,
    order_type: OrderType,
    time_in_force: TimeInForce,
    price: Amount,
    quantity: Amount,
) -> CreateOrderRequest {
    CreateOrderRequest {
        item_id,
        user_id: new_id(),
        order_side,
        order_type,
        price,
        quantity,
        time_in_force,
    }
}

#[test]
fn cancel_of_an_unknown_order_says_no() {
    let mut book = OrderBookService::new();
    assert!(!book.cancel_order(new_id()));
    assert!(book.get_orders().is_empty());
}

#[test]
fn cancel_of_a_terminal_order_says_no_and_changes_nothing() {
    let mut book = OrderBookService::new();
    let item = new_id();
    book.add_order_with(
        request(item, OrderSide::Sell, OrderType::Limit, TimeInForce::GTC, amount("10"), amount("1")),
        1,
        10,
    )
    .unwrap();
    book.add_order_with(
        request(item, OrderSide::Buy, OrderType::Limit, TimeInForce::GTC, amount("10"), amount("1")),
        2,
        20,
    )
    .unwrap();
    let closed = *book.get_order_by_id(1).unwrap();
    assert_eq!(closed.status, OrderStatus::Closed);
    assert!(!book.cancel_order_at(1, 30));
    assert_eq!(*book.get_order_by_id(1).unwrap(), closed);
    book.add_order_with(
        request(item, OrderSide::Buy, OrderType::Limit, TimeInForce::GTC, amount("10"), amount("1")),
        3,
        40,
    )
    .unwrap();
    assert!(book.cancel_order_at(3, 50));
    let cancelled = *book.get_order_by_id(3).unwrap();
    assert_eq!(cancelled.status, OrderStatus::Cancelled);
    assert_eq!(cancelled.updated_at, 50);
    assert_eq!(cancelled.created_at, 40);
    assert!(!book.cancel_order_at(3, 60));
    assert_eq!(*book.get_order_by_id(3).unwrap(), cancelled);
}

#[test]
fn cancel_of_a_partially_filled_order_keeps_what_it_filled() {
    let mut book = OrderBookService::new();
    let item = new_id();
    book.add_order_with(
        request(item, OrderSide::Sell, OrderType::Limit, TimeInForce::GTC, amount("10"), amount("5")),
        1,
        10,
    )
    .unwrap();
    book.add_order_with(
        request(item, OrderSide::Buy, OrderType::Limit, TimeInForce::GTC, amount("10"), amount("2")),
        2,
        20,
    )
    .unwrap();
    assert!(book.cancel_order_at(1, 30));
    let order = *book.get_order_by_id(1).unwrap();
    assert_eq!(order.status, OrderStatus::Cancelled);
    assert_eq!(order.quantity_filled, amount("2"));
    assert_eq!(order.quantity, amount("5"));
    assert!(book.resting_orders(item, OrderSide::Sell).is_empty());
    assert_eq!(book.trades.len(), 1);
}

#[test]
fn updates_of_an_unknown_order_give_nothing() {
    let mut book = OrderBookService::new();
    assert!(book.update_order_status(5, OrderStatus::Closed).is_none());
    assert!(book.update_order_price(5, amount("1")).is_none());
    assert!(book.update_order_quantity(5, amount("1")).is_none());
    assert!(book.get_order_by_id(5).is_none());
    assert!(book.get_mutable_order_by_id(5).is_none());
    assert!(book.get_orders().is_empty());
}

#[test]
fn updates_advance_the_time_and_leave_the_rest() {
    let mut book = OrderBookService::new();
    let item = new_id();
    let order = book
        .add_order_with(
            request(item, OrderSide::Buy, OrderType::Limit, TimeInForce::GTC, amount("10"), amount("5")),
            1,
            10,
        )
        .unwrap();
    let updated = *book.update_order_status_at(1, OrderStatus::PartiallyFilled, 20).unwrap();
    assert_eq!(updated, Order { status: OrderStatus::PartiallyFilled, updated_at: 20, ..order });
    let updated = *book.update_order_quantity_at(1, amount("7"), 30).unwrap();
    assert_eq!(
        updated,
        Order { status: OrderStatus::PartiallyFilled, quantity: amount("7"), updated_at: 30, ..order }
    );
    let updated = *book.update_order_price_at(1, amount("12"), 40).unwrap();
    assert_eq!(
        updated,
        Order {
            status: OrderStatus::PartiallyFilled,
            quantity: amount("7"),
            price: amount("12"),
            updated_at: 40,
            ..order
        }
    );
    assert_eq!(*book.get_order_by_id(1).unwrap(), updated);
    assert!(book.trades.is_empty());
}

#[test]
fn price_update_leaves_the_order_in_its_old_level() {
    let mut book = OrderBookService::new();
    let item = new_id();
    book.add_order_with(
        request(item, OrderSide::Buy, OrderType::Limit, TimeInForce::GTC, amount("10"), amount("5")),
        1,
        10,
    )
    .unwrap();
    book.update_order_price_at(1, amount("12"), 20).unwrap();
    assert_eq!(
        book.resting_orders(item, OrderSide::Buy),
        vec![Resting { price: amount("10"), id: 1 }]
    );
    assert_eq!(book.get_current_market_price(item, OrderSide::Sell), Some(amount("10")));
    // the order is cancelled, but its entry is looked for at the new price
    assert!(book.cancel_order_at(1, 30));
    assert_eq!(book.get_order_by_id(1).unwrap().status, OrderStatus::Cancelled);
    assert_eq!(
        book.resting_orders(item, OrderSide::Buy),
        vec![Resting { price: amount("10"), id: 1 }]
    );
}

#[test]
fn status_update_leaves_the_order_on_the_book() {
    let mut book = OrderBookService::new();
    let item = new_id();
    book.add_order_with(
        request(item, OrderSide::Sell, OrderType::Limit, TimeInForce::GTC, amount("10"), amount("5")),
        1,
        10,
    )
    .unwrap();
    book.update_order_status_at(1, OrderStatus::Closed, 20).unwrap();
    assert_eq!(
        book.resting_orders(item, OrderSide::Sell),
        vec![Resting { price: amount("10"), id: 1 }]
    );
}

#[test]
fn mutable_handle_writes_through_to_the_store() {
    let mut book = OrderBookService::new();
    let item = new_id();
    book.add_order_with(
        request(item, OrderSide::Sell, OrderType::Limit, TimeInForce::GTC, amount("10"), amount("5")),
        1,
        10,
    )
    .unwrap();
    {
        let order = book.get_mutable_order_by_id(1).unwrap();
        assert_eq!(order.quantity, amount("5"));
        order.quantity = amount("8");
        order.user_id = 77;
    }
    assert_eq!(book.get_order_by_id(1).unwrap().quantity, amount("8"));
    assert_eq!(book.get_order_by_id(1).unwrap().user_id, 77);
    assert_eq!(book.get_orders().len(), 1);
    assert_eq!(book.resting_orders(item, OrderSide::Sell).len(), 1);
}

fn order(side: OrderSide, order_type: OrderType, price: &str) -> Order {
    Order {
        id: 1,
        item_id: 2,
        user_id: 3,
        order_side: side,
        order_type,
        time_in_force: TimeInForce::GTC,
        price: amount(price),
        quantity: amount("10"),
        quantity_filled: amount("0"),
        status: OrderStatus::Open,
        created_at: 5,
        updated_at: 5,
        expires_at: None,
    }
}

#[test]
fn crossing_test_compares_the_limit_with_the_resting_price() {
    let book = OrderBookService::new();
    let ask = order(OrderSide::Sell, OrderType::Limit, "10");
    let bid = order(OrderSide::Buy, OrderType::Limit, "10");
    assert!(book.can_match_price(&order(OrderSide::Buy, OrderType::Limit, "10"), &ask));
    assert!(book.can_match_price(&order(OrderSide::Buy, OrderType::Limit, "10.5"), &ask));
    assert!(!book.can_match_price(&order(OrderSide::Buy, OrderType::Limit, "9.99999999"), &ask));
    assert!(book.can_match_price(&order(OrderSide::Sell, OrderType::Limit, "10"), &bid));
    assert!(book.can_match_price(&order(OrderSide::Sell, OrderType::Limit, "9"), &bid));
    assert!(!book.can_match_price(&order(OrderSide::Sell, OrderType::Limit, "10.00000001"), &bid));
    assert!(book.can_match_price(&order(OrderSide::Buy, OrderType::Market, "1"), &ask));
    assert!(book.can_match_price(&order(OrderSide::Sell, OrderType::Market, "100"), &bid));
}

#[test]
fn fill_routine_adds_the_quantity_and_sets_the_status() {
    let open = order(OrderSide::Sell, OrderType::Limit, "10");
    let partly = OrderBookService::fill_order(open, amount("4"), 9);
    assert_eq!(
        partly,
        Order { quantity_filled: amount("4"), status: OrderStatus::PartiallyFilled, updated_at: 9, ..open }
    );
    let closed = OrderBookService::fill_order(partly, amount("6"), 11);
    assert_eq!(
        closed,
        Order { quantity_filled: amount("10"), status: OrderStatus::Closed, updated_at: 11, ..open }
    );
}

#[test]
fn matching_an_order_directly_settles_it() {
    let mut book = OrderBookService::new();
    let item = new_id();
    book.add_order_with(
        request(item, OrderSide::Sell, OrderType::Limit, TimeInForce::GTC, amount("10"), amount("4")),
        1,
        10,
    )
    .unwrap();
    let mut incoming = Order { id: 50, item_id: item, ..order(OrderSide::Buy, OrderType::Limit, "10") };
    book.execute_order_matching_at(&mut incoming, 20);
    assert_eq!(incoming.status, OrderStatus::PartiallyFilled);
    assert_eq!(incoming.quantity_filled, amount("4"));
    assert_eq!(incoming.updated_at, 20);
    assert_eq!(*book.get_order_by_id(50).unwrap(), incoming);
    assert_eq!(book.get_order_by_id(1).unwrap().status, OrderStatus::Closed);
    assert_eq!(book.trades.len(), 1);
    assert_eq!(book.trades[0].buy_order_id, 50);
    assert_eq!(book.trades[0].sell_order_id, 1);
    assert_eq!(
        book.resting_orders(item, OrderSide::Buy),
        vec![Resting { price: amount("10"), id: 50 }]
    );
    let mut other = Order { id: 51, item_id: item, ..order(OrderSide::Sell, OrderType::Limit, "11") };
    book.execute_order_matching(&mut other);
    assert_eq!(other.status, OrderStatus::Open);
    assert_eq!(
        book.resting_orders(item, OrderSide::Sell),
        vec![Resting { price: amount("11"), id: 51 }]
    );
}

#[test]
fn validation_gives_the_price_the_order_will_carry() {
    let mut book = OrderBookService::new();
    let item = new_id();
    let limit = request(item, OrderSide::Sell, OrderType::Limit, TimeInForce::GTC, amount("10"), amount("4"));
    assert_eq!(book.check(&limit, 1), Ok(amount("10")));
    book.add_order_with(limit, 1, 10).unwrap();
    let market = request(item, OrderSide::Buy, OrderType::Market, TimeInForce::GTC, amount("9.9"), amount("4"));
    assert_eq!(book.check(&market, 2), Ok(amount("10")));
    assert_eq!(book.check(&market, 1), Err(oxide_arbiter::Rejection::DuplicateId));
    let far = request(item, OrderSide::Buy, OrderType::Market, TimeInForce::GTC, amount("9"), amount("4"));
    assert_eq!(
        book.check(&far, 2),
        Err(oxide_arbiter::Rejection::Slippage { market: amount("10"), price: amount("9") })
    );
    let nothing = request(item, OrderSide::Sell, OrderType::Market, TimeInForce::GTC, amount("9"), amount("4"));
    assert_eq!(book.check(&nothing, 2), Err(oxide_arbiter::Rejection::NoReferencePrice));
    assert_eq!(
        oxide_arbiter::Rejection::NoReferencePrice.message(),
        "Market order cannot be placed without any existing orders to determine price"
    );
    assert_eq!(oxide_arbiter::Rejection::NegativePrice.message(), "Price cannot be negative");
    assert_eq!(oxide_arbiter::Rejection::NoQuantity.message(), "Quantity must be greater than zero");
    assert_eq!(oxide_arbiter::Rejection::DuplicateId.message(), "Order identifier is already in use");
}

#[test]
fn slippage_message_names_the_market_price_first() {
    assert_eq!(
        oxide_arbiter::rejection::slippage_message("30", "20.5"),
        "Market order price cannot be more than 5% away from the current market price. Current market price: 30, Order price: 20.5"
    );
    assert_eq!(
        oxide_arbiter::Rejection::Slippage { market: amount("30"), price: amount("20.5") }.message(),
        "Market order price cannot be more than 5% away from the current market price. Current market price: 30.00000000, Order price: 20.50000000"
    );
}

#[test]
fn resting_order_with_nothing_available_is_passed_over() {
    let mut book = OrderBookService::new();
    let item = new_id();
    for id in [1u128, 2] {
        book.add_order_with(
            request(item, OrderSide::Sell, OrderType::Limit, TimeInForce::GTC, amount("10"), amount("5")),
            id,
            id as i64,
        )
        .unwrap();
    }
    book.add_order_with(
        request(item, OrderSide::Buy, OrderType::Limit, TimeInForce::GTC, amount("10"), amount("2")),
        3,
        3,
    )
    .unwrap();
    book.update_order_quantity_at(1, amount("2"), 4).unwrap();
    let stuck = *book.get_order_by_id(1).unwrap();
    let buy = book
        .add_order_with(
            request(item, OrderSide::Buy, OrderType::Limit, TimeInForce::GTC, amount("10"), amount("3")),
            5,
            5,
        )
        .unwrap();
    assert_eq!(buy.status, OrderStatus::Closed);
    assert_eq!(book.trades.len(), 2);
    assert_eq!(book.trades[1].sell_order_id, 2);
    assert_eq!(book.trades[1].quantity, amount("3"));
    assert_eq!(*book.get_order_by_id(1).unwrap(), stuck);
    assert_eq!(
        book.resting_orders(item, OrderSide::Sell),
        vec![Resting { price: amount("10"), id: 1 }, Resting { price: amount("10"), id: 2 }]
    );
}

#[test]
fn crossing_goes_by_the_record_and_the_trade_by_the_level() {
    let mut book = OrderBookService::new();
    let item = new_id();
    book.add_order_with(
        request(item, OrderSide::Sell, OrderType::Limit, TimeInForce::GTC, amount("10"), amount("5")),
        1,
        1,
    )
    .unwrap();
    book.update_order_price_at(1, amount("20"), 2).unwrap();
    let shy = book
        .add_order_with(
            request(item, OrderSide::Buy, OrderType::Limit, TimeInForce::IOC, amount("15"), amount("1")),
            3,
            3,
        )
        .unwrap();
    assert_eq!(shy.quantity_filled, amount("0"));
    assert!(book.trades.is_empty());
    let bold = book
        .add_order_with(
            request(item, OrderSide::Buy, OrderType::Limit, TimeInForce::IOC, amount("25"), amount("1")),
            4,
            4,
        )
        .unwrap();
    assert_eq!(bold.quantity_filled, amount("1"));
    assert_eq!(book.trades.len(), 1);
    assert_eq!(book.trades[0].price, amount("10"));
}
