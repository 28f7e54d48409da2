//! Why an order is turned away at admission, and the message that says so.

use vstd::prelude::*;
use crate::amount::Amount;

verus! {

/// The reason an order is not admitted.
#[derive(Debug, Clone, Copy, PartialEq, Eq)]
pub enum Rejection {
    /// The requested price is below zero.
    NegativePrice,
    /// The requested quantity is zero or below.
    NoQuantity,
    /// A market order arrived while nothing rests on the other side.
    NoReferencePrice,
    /// A market order asks for a price that the market has left behind by
    /// more than five percent.
    Slippage { market: Amount, price: Amount },
    /// The order store already holds an order under the identifier.
    DuplicateId,
}

/// The slippage message for the two prices as they are written: it names
/// the market's price first and the requested one second.
pub open spec fn slippage_text(market: Seq<char>, price: Seq<char>) -> Seq<char> {
    "Market order price cannot be more than 5% away from the current market price. Current market price: "@
        + market + ", Order price: "@ + price
}

/// Writes the slippage message for the two prices as they are written.
pub fn slippage_message(market: &str, price: &str) -> (message: String)
    ensures
        message@ == slippage_text(market@, price@),
{
    let mut message = String::from_str(
        "Market order price cannot be more than 5% away from the current market price. Current market price: ",
    );
    message.append(market);
    message.append(", Order price: ");
    message.append(price);
    message
}

impl Rejection {
    /// The message for a rejection.
    pub open spec fn text(self) -> Seq<char> {
        match self {
            Rejection::NegativePrice => "Price cannot be negative"@,
            Rejection::NoQuantity => "Quantity must be greater than zero"@,
            Rejection::NoReferencePrice => "Market order cannot be placed without any existing orders to determine price"@,
            Rejection::Slippage { market, price } => slippage_text(market.text(), price.text()),
            Rejection::DuplicateId => "Order identifier is already in use"@,
        }
    }

    /// Writes the message for a rejection; a slippage message ends with the
    /// market's price and the requested one.
    pub fn message(&self) -> (message: String)
        ensures
            message@ == self.text(),
    {
        match self {
            Rejection::NegativePrice => String::from_str("Price cannot be negative"),
            Rejection::NoQuantity => String::from_str("Quantity must be greater than zero"),
            Rejection::NoReferencePrice => String::from_str(
                "Market order cannot be placed without any existing orders to determine price",
            ),
            Rejection::Slippage { market, price } => {
                let market_text = market.to_text();
                let price_text = price.to_text();
                slippage_message(market_text.as_str(), price_text.as_str())
            },
            Rejection::DuplicateId => String::from_str("Order identifier is already in use"),
        }
    }
}

} // verus!
