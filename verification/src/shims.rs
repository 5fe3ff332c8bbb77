//! Thin trusted bridges to library functions that Verus has no
//! specification for: string-slice equality, collecting characters into a
//! `String`, and reading today's date from the system clock.

use vstd::prelude::*;

verus! {

/// Relies on `str`'s `PartialEq`: two string slices are equal exactly when
/// they consist of the same characters.
#[verifier::external_body]
pub(crate) fn str_eq(a: &str, b: &str) -> (r: bool)
    ensures
        r == (a@ == b@),
{
    a == b
}

/// Relies on `Iterator::collect` into `String`: the collected string holds
/// exactly the characters of the vector, in order.
#[verifier::external_body]
pub(crate) fn chars_to_string(v: &Vec<char>) -> (r: String)
    ensures
        r@ == v@,
{
    v.iter().collect()
}

/// Relies on `chrono::Local::now` and `chrono::DateTime::format` with the
/// year-month-day format string. The result depends on the clock and the
/// machine's time zone, so nothing is promised of its value.
#[verifier::external_body]
pub(crate) fn today_string() -> String {
    chrono::Local::now().format("%Y-%m-%d").to_string()
}

} // verus!
