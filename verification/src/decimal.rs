//! Exact decimal accumulation, backed by arbitrary-precision decimals of
//! the `bigdecimal` crate. A decimal value is carried around as its
//! canonical text; what the outside crate computes is named by the
//! uninterpreted functions below, and everything the library proves about
//! sums goes through those names.
#![allow(unused_imports)]
use vstd::prelude::*;

verus! {

/// Whether `s` is the text of a decimal number, i.e. whether bigdecimal's
/// `FromStr` accepts it.
pub uninterp spec fn is_decimal(s: Seq<char>) -> bool;

/// The canonical decimal text of the integer `n`.
pub uninterp spec fn dec_of_int(n: int) -> Seq<char>;

/// The canonical decimal text of the exact sum of the decimals `a` and `b`.
pub uninterp spec fn dec_add(a: Seq<char>, b: Seq<char>) -> Seq<char>;

/// Relies on bigdecimal's `From<i64>` and `Display`: the decimal rendering
/// of an integer, which bigdecimal's `FromStr` reads back.
#[verifier::external_body]
pub(crate) fn dec_from_i64(n: i64) -> (r: String)
    ensures
        r@ == dec_of_int(n as int),
        is_decimal(r@),
{
    bigdecimal::BigDecimal::from(n).to_string()
}

/// Relies on bigdecimal's `FromStr`, `Add` and `Display`: parses both
/// operands, adds them exactly, and renders the sum. Whether `FromStr`
/// accepts `field` depends on that text alone; the sum's rendering depends
/// on the two texts alone, and `FromStr` reads it back.
#[verifier::external_body]
pub(crate) fn dec_add_str(acc: &str, field: &str) -> (r: Option<String>)
    requires
        is_decimal(acc@),
    ensures
        (r is Some) == is_decimal(field@),
        r matches Some(s) ==> s@ == dec_add(acc@, field@) && is_decimal(s@),
{
    let a: bigdecimal::BigDecimal = match acc.parse() {
        Ok(v) => v,
        Err(_) => return None,
    };
    let f: bigdecimal::BigDecimal = match field.parse() {
        Ok(v) => v,
        Err(_) => return None,
    };
    Some((a + f).to_string())
}

} // verus!
