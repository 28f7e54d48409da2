//! Exact decimal amounts: prices and quantities counted in units of 10^-8.

use vstd::prelude::*;
use crate::outside::{decimal_display, decimal_text};

verus! {

/// Number of fractional decimal digits that an [`Amount`] carries.
pub const SCALE: u32 = 8;

/// Ten to the power `n`.
pub open spec fn pow10(n: nat) -> int
    decreases n,
{
    if n == 0 {
        1
    } else {
        10 * pow10((n - 1) as nat)
    }
}

/// Whether `units` units of 10^-8 are the decimal number with the given
/// mantissa and scale, which is `mantissa / 10^scale`.
pub open spec fn denotes(units: int, mantissa: int, scale: nat) -> bool {
    units * pow10(scale) == mantissa * pow10(SCALE as nat)
}

/// A decimal number with eight fractional digits, held as a count of units
/// of 10^-8. Equal numbers have equal representations, so amounts compare
/// and order as the numbers they stand for.
#[derive(Debug, Clone, Copy, PartialEq, Eq, Structural)]
pub struct Amount {
    pub units: i64,
}

impl Amount {
    /// The amount that is the decimal number `mantissa / 10^scale`, where
    /// that number has no more than eight fractional digits and its count
    /// of units fits; none otherwise.
    pub fn from_parts(mantissa: i128, scale: u32) -> (r: Option<Amount>)
        ensures
            match r {
                Some(a) => denotes(a.units as int, mantissa as int, scale as nat),
                None => forall|units: i64| !denotes(units as int, mantissa as int, scale as nat),
            },
    {
        if mantissa == 0 {
            return Some(Amount { units: 0 });
        }
        let mut m: i128 = mantissa;
        let mut s: u32 = scale;
        while s > SCALE
            invariant
                m != 0,
                s <= scale,
                m * pow10(scale as nat) == mantissa * pow10(s as nat),
            decreases s,
        {
            if m % 10 != 0 {
                proof {
                    assert forall|units: i64| !denotes(units as int, mantissa as int, scale as nat) by {
                        if denotes(units as int, mantissa as int, scale as nat) {
                            lemma_same_number(units as int, m as int, s as nat, mantissa as int, scale as nat);
                            lemma_pow10_add(SCALE as nat, (s - SCALE - 1) as nat);
                            lemma_pow10_add((s - SCALE - 1) as nat, 1);
                            lemma_pow10_positive(SCALE as nat);
                            lemma_not_a_multiple(
                                units as int,
                                m as int,
                                pow10((s - SCALE - 1) as nat),
                                pow10(SCALE as nat),
                                pow10(s as nat),
                            );
                        }
                    }
                }
                return None;
            }
            proof {
                lemma_pow10_positive(scale as nat);
                lemma_tenth(m as int, pow10(scale as nat), mantissa as int, pow10((s - 1) as nat));
            }
            m = m / 10;
            s = s - 1;
        }
        while s < SCALE
            invariant
                s <= SCALE,
                m * pow10(scale as nat) == mantissa * pow10(s as nat),
            decreases SCALE - s,
        {
            if m > 922337203685477580 || m < -922337203685477580 {
                proof {
                    assert forall|units: i64| !denotes(units as int, mantissa as int, scale as nat) by {
                        if denotes(units as int, mantissa as int, scale as nat) {
                            lemma_same_number(units as int, m as int, s as nat, mantissa as int, scale as nat);
                            lemma_pow10_add(s as nat, (SCALE - s - 1) as nat);
                            lemma_pow10_add((s + SCALE - s - 1) as nat, 1);
                            lemma_pow10_positive(s as nat);
                            lemma_pow10_positive((SCALE - s - 1) as nat);
                            lemma_too_large(
                                units as int,
                                m as int,
                                pow10(s as nat),
                                pow10((SCALE - s - 1) as nat),
                                pow10(SCALE as nat),
                            );
                        }
                    }
                }
                return None;
            }
            proof {
                lemma_ten_times(m as int, pow10(scale as nat), mantissa as int, pow10(s as nat));
            }
            m = m * 10;
            s = s + 1;
        }
        if m > i64::MAX as i128 || m < i64::MIN as i128 {
            proof {
                assert forall|units: i64| !denotes(units as int, mantissa as int, scale as nat) by {
                    if denotes(units as int, mantissa as int, scale as nat) {
                        lemma_same_number(units as int, m as int, s as nat, mantissa as int, scale as nat);
                        lemma_pow10_positive(SCALE as nat);
                        lemma_cancel(units as int, m as int, pow10(SCALE as nat));
                    }
                }
            }
            return None;
        }
        Some(Amount { units: m as i64 })
    }

    /// The amount in decimal notation, with all eight fractional digits.
    pub open spec fn text(self) -> Seq<char> {
        decimal_display(self.units as int, SCALE as nat)
    }

    /// Writes the amount in decimal notation.
    pub fn to_text(&self) -> (text: String)
        ensures
            text@ == self.text(),
    {
        decimal_text(self.units, SCALE)
    }
}

/// A power of ten is positive.
proof fn lemma_pow10_positive(n: nat)
    ensures
        pow10(n) > 0,
    decreases n,
{
    if n > 0 {
        lemma_pow10_positive((n - 1) as nat);
    }
}

/// Powers of ten multiply by adding their exponents.
proof fn lemma_pow10_add(a: nat, b: nat)
    ensures
        pow10(a + b) == pow10(a) * pow10(b),
    decreases b,
{
    if b > 0 {
        lemma_pow10_add(a, (b - 1) as nat);
        assert(pow10(a + b) == 10 * pow10((a + b - 1) as nat));
        assert(10 * (pow10(a) * pow10((b - 1) as nat)) == pow10(a) * (10 * pow10((b - 1) as nat)))
            by (nonlinear_arith);
    } else {
        assert(pow10(a) * 1 == pow10(a)) by (nonlinear_arith);
    }
}

/// Equal products with a positive factor have equal other factors.
proof fn lemma_cancel(a: int, b: int, c: int)
    requires
        a * c == b * c,
        c > 0,
    ensures
        a == b,
{
    assert(a == b) by (nonlinear_arith)
        requires
            a * c == b * c,
            c > 0,
    ;
}

/// Two ways to write one number: if `m / 10^s` and `units / 10^8` both are
/// `mantissa / 10^scale`, they are the same number.
proof fn lemma_same_number(units: int, m: int, s: nat, mantissa: int, scale: nat)
    requires
        m * pow10(scale) == mantissa * pow10(s),
        units * pow10(scale) == mantissa * pow10(SCALE as nat),
    ensures
        units * pow10(s) == m * pow10(SCALE as nat),
{
    lemma_pow10_positive(scale);
    let p = pow10(scale);
    let ps = pow10(s);
    let base = pow10(SCALE as nat);
    assert((units * ps) * p == (m * base) * p) by (nonlinear_arith)
        requires
            m * p == mantissa * ps,
            units * p == mantissa * base,
    ;
    lemma_cancel(units * ps, m * base, p);
}

/// A number that is not a multiple of ten is not a multiple of a higher
/// power of ten either.
proof fn lemma_not_a_multiple(units: int, m: int, rest: int, base: int, ps: int)
    requires
        m % 10 != 0,
        base > 0,
        ps == (base * rest) * 10,
    ensures
        units * ps != m * base,
{
    if units * ps == m * base {
        assert((units * rest * 10) * base == m * base) by (nonlinear_arith)
            requires
                ps == (base * rest) * 10,
                units * ps == m * base,
        ;
        lemma_cancel(units * rest * 10, m, base);
        assert((units * rest * 10) % 10 == 0) by (nonlinear_arith);
    }
}

/// A count that is already beyond a tenth of the range has no place in
/// the range once it is scaled up by ten or more.
proof fn lemma_too_large(units: int, m: int, ps: int, rest: int, base: int)
    requires
        m > 922337203685477580 || m < -922337203685477580,
        ps > 0,
        rest > 0,
        base == (ps * rest) * 10,
        i64::MIN <= units <= i64::MAX,
    ensures
        units * ps != m * base,
{
    if units * ps == m * base {
        assert(units * ps == (m * rest * 10) * ps) by (nonlinear_arith)
            requires
                base == (ps * rest) * 10,
                units * ps == m * base,
        ;
        lemma_cancel(units, m * rest * 10, ps);
        assert(units != m * rest * 10) by (nonlinear_arith)
            requires
                rest > 0,
                m > 922337203685477580 || m < -922337203685477580,
                -9223372036854775808 <= units <= 9223372036854775807,
        ;
    }
}

/// Dropping a trailing zero of the mantissa and one digit of the scale
/// leaves the number as it is.
proof fn lemma_tenth(m: int, p: int, mantissa: int, lower: int)
    requires
        m % 10 == 0,
        p > 0,
        m * p == mantissa * (10 * lower),
    ensures
        (m / 10) * p == mantissa * lower,
{
    assert((m / 10) * p == mantissa * lower) by (nonlinear_arith)
        requires
            m % 10 == 0,
            m * p == mantissa * (10 * lower),
    ;
}

/// Appending a zero to the mantissa and one digit to the scale leaves the
/// number as it is.
proof fn lemma_ten_times(m: int, p: int, mantissa: int, ps: int)
    requires
        m * p == mantissa * ps,
    ensures
        (m * 10) * p == mantissa * (10 * ps),
{
    assert((m * 10) * p == mantissa * (10 * ps)) by (nonlinear_arith)
        requires
            m * p == mantissa * ps,
    ;
}

} // verus!
