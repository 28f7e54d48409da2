//! The calls that leave the library. Verus takes the contracts of these
//! functions on trust; their bodies are not verified.

use vstd::prelude::*;
use std::collections::HashMap;
use crate::dto::Order;

verus! {

/// The text that `rust_decimal` prints for the decimal number with the
/// given mantissa and scale, which is `mantissa / 10^scale`.
pub uninterp spec fn decimal_display(mantissa: int, scale: nat) -> Seq<char>;

/// Draws a random version-4 identifier with `uuid::Uuid::new_v4` and hands
/// it back as the 128-bit number that `Uuid::as_u128` gives. Nothing is
/// claimed of the number: it is random.
#[verifier::external_body]
pub(crate) fn fresh_id() -> u128 {
    uuid::Uuid::new_v4().as_u128()
}

/// Reads the clock with `chrono::Utc::now` and hands the time back as
/// `DateTime::timestamp_micros` counts it, in microseconds since the Unix
/// epoch. Nothing is claimed of the number: it is the time of the call.
#[verifier::external_body]
pub(crate) fn clock_micros() -> i64 {
    chrono::Utc::now().timestamp_micros()
}

/// Prints a decimal number as `rust_decimal::Decimal` displays it: the
/// number is built with `Decimal::new` from its mantissa and scale, which
/// accepts every scale up to 28, and printed with `to_string`. The contract
/// only names the text.
#[verifier::external_body]
pub(crate) fn decimal_text(mantissa: i64, scale: u32) -> (text: String)
    requires
        scale <= 28,
    ensures
        text@ == decimal_display(mantissa as int, scale as nat),
{
    rust_decimal::Decimal::new(mantissa, scale).to_string()
}

/// `HashMap::get_mut` on the order store: a mutable reference to the record
/// under `id`, if there is one. The map ends up as it was but for what the
/// caller writes through the reference.
#[verifier::external_body]
pub(crate) fn record_mut<'a>(orders: &'a mut HashMap<u128, Order>, id: u128) -> (r: Option<&'a mut Order>)
    ensures
        match r {
            Some(order) => old(orders)@.contains_key(id) && *order == old(orders)@[id]
                && final(orders)@ == old(orders)@.insert(id, *final(order)),
            None => !old(orders)@.contains_key(id) && final(orders)@ == old(orders)@,
        },
{
    orders.get_mut(&id)
}

} // verus!
