//! The records that cross the library's boundary: orders, trades and the
//! request that creates an order.

use vstd::prelude::*;
use crate::amount::Amount;

verus! {

/// How long an order stays eligible for matching.
#[derive(Debug, Clone, Copy, PartialEq, Eq, Structural)]
pub enum TimeInForce {
    /// Good till cancelled: rests until it is filled or cancelled.
    GTC,
    /// Immediate or cancel: fills what it can at once, the rest is dropped.
    IOC,
    /// Fill or kill: fills completely at once or not at all.
    FOK,
    /// Day order: rests like GTC, for 24 hours.
    DAY,
}

/// The side of the market an order is on.
#[derive(Debug, Clone, Copy, PartialEq, Eq, Structural)]
pub enum OrderSide {
    Buy,
    Sell,
}

/// Where an order stands in its life.
#[derive(Debug, Clone, Copy, PartialEq, Eq, Structural)]
pub enum OrderStatus {
    Open,
    PartiallyFilled,
    Closed,
    Cancelled,
}

/// Whether an order names its own price or takes the market's.
#[derive(Debug, Clone, Copy, PartialEq, Eq, Structural)]
pub enum OrderType {
    Limit,
    Market,
}

/// An order as the order store keeps it. Identifiers are 128-bit numbers,
/// timestamps count microseconds since the Unix epoch.
#[derive(Debug, Clone, Copy, PartialEq, Eq)]
pub struct Order {
    pub id: u128,
    pub item_id: u128,
    pub user_id: u128,
    pub order_side: OrderSide,
    pub order_type: OrderType,
    pub time_in_force: TimeInForce,
    pub price: Amount,
    pub quantity: Amount,
    pub quantity_filled: Amount,
    pub status: OrderStatus,
    pub created_at: i64,
    pub updated_at: i64,
    pub expires_at: Option<i64>,
}

/// One execution between a buy order and a sell order.
#[derive(Debug, Clone, Copy, PartialEq, Eq)]
pub struct Trade {
    pub id: u128,
    pub buy_order_id: u128,
    pub sell_order_id: u128,
    pub item_id: u128,
    pub quantity: Amount,
    pub price: Amount,
    pub timestamp: i64,
}

/// What a caller hands in to have an order created.
#[derive(Debug, Clone, Copy, PartialEq, Eq)]
pub struct CreateOrderRequest {
    pub item_id: u128,
    pub user_id: u128,
    pub order_side: OrderSide,
    pub order_type: OrderType,
    pub price: Amount,
    pub quantity: Amount,
    pub time_in_force: TimeInForce,
}

} // verus!
