//! Decimal rendering of small numbers.

use vstd::prelude::*;

verus! {

/// The character for a single decimal digit.
pub open spec fn digit_char(d: nat) -> char
    recommends
        d < 10,
{
    if d == 0 {
        '0'
    } else if d == 1 {
        '1'
    } else if d == 2 {
        '2'
    } else if d == 3 {
        '3'
    } else if d == 4 {
        '4'
    } else if d == 5 {
        '5'
    } else if d == 6 {
        '6'
    } else if d == 7 {
        '7'
    } else if d == 8 {
        '8'
    } else {
        '9'
    }
}

/// The decimal numeral of `n`, without sign or leading zeros.
pub open spec fn decimal_digits(n: nat) -> Seq<char>
    decreases n,
{
    if n < 10 {
        seq![digit_char(n)]
    } else {
        decimal_digits(n / 10).push(digit_char(n % 10))
    }
}

/// Renders a `u8` in decimal.
///
/// Trusted: calls `u8`'s `ToString::to_string`, which std documents to give
/// the plain decimal numeral; the contract claims exactly that numeral.
#[verifier::external_body]
pub(crate) fn decimal_string(n: u8) -> (text: String)
    ensures
        text@ == decimal_digits(n as nat),
{
    n.to_string()
}

} // verus!
