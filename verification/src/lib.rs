//! A price-time-priority limit order book: orders are admitted, matched
//! against the resting orders of the opposite side, and what is left of them
//! rests on the book.
//!
//! The service in [`service`] holds the order store, the price-level index
//! of [`index`] and the trade log. What its operations mean is stated over a
//! mathematical model in [`admission`] and [`matching`]; [`consistency`]
//! says when a book is in order, and [`laws`] proves that admitting and
//! cancelling orders keep it so. Every contract is proved by Verus but
//! those of the few functions in [`outside`], which call other crates.
//!
//! Prices and quantities are exact decimals with eight fractional digits
//! ([`Amount`]); identifiers are 128-bit numbers and timestamps count
//! microseconds since the Unix epoch.

pub mod admission;
pub mod amount;
pub mod consistency;
pub mod dto;
pub mod index;
pub mod laws;
pub mod matching;
pub mod outside;
pub mod proofs;
pub mod rejection;
pub mod service;

pub use amount::Amount;
pub use dto::{
    CreateOrderRequest, Order, OrderSide, OrderStatus, OrderType, TimeInForce, Trade,
};
pub use index::{PriceLevelIndex, Resting};
pub use rejection::Rejection;
pub use service::OrderBookService;
