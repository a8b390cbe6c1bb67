//! JSON numbers. A number is carried through as `serde_json::Number`, which
//! keeps integers and floating-point values apart and prints each exactly.
//! Its inside is not visible here: what the library needs of a number is
//! named below and taken on trust from `serde_json`.

use vstd::prelude::*;

verus! {

/// `serde_json::Number`: a JSON number, integer or floating point.
#[verifier::external_type_specification]
#[verifier::external_body]
pub struct ExNumber(serde_json::Number);

/// The largest reference id.
pub const MAX_REF_ID: i32 = 2_147_483_647;

/// What `serde_json::Number::as_i64` returns for a number: the number as an
/// `i64` where it is held as an integer that fits, else `None`.
pub uninterp spec fn number_i64(n: serde_json::Number) -> Option<i64>;

/// The number that `serde_json::Number::from` makes of an `i64`.
pub uninterp spec fn number_of_i64(i: i64) -> serde_json::Number;

/// `Clone::clone` of `serde_json::Number`: the copy is the same number.
pub assume_specification[ <serde_json::Number as Clone>::clone ](n: &serde_json::Number) -> (r:
    serde_json::Number)
    ensures
        r == *n,
;

/// `serde_json::Number::as_i64`: its result depends on the number alone.
#[verifier::external_body]
pub(crate) fn number_as_i64(n: &serde_json::Number) -> (r: Option<i64>)
    ensures
        r == number_i64(*n),
{
    n.as_i64()
}

/// `serde_json::Number::from` on an `i64`: the result depends on the integer
/// alone, and `as_i64` reads the integer back from it.
#[verifier::external_body]
pub(crate) fn number_from_i64(i: i64) -> (r: serde_json::Number)
    ensures
        r == number_of_i64(i),
        number_i64(r) == Some(i),
{
    serde_json::Number::from(i)
}

} // verus!
