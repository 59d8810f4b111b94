//! Reading the time stamp of a record.
//!
//! The calendar arithmetic is chrono's. The library reads a time stamp as
//! the number of seconds between 1970-01-01 00:00:00 and the naive date and
//! time that chrono parses from the text.

use vstd::prelude::*;

verus! {

/// The time-stamp format of the bracketed grammar: seconds precision,
/// twelve-hour clock.
pub const BRACKETED_FORMAT: &'static str = "%m/%d/%y, %I:%M:%S %p";

/// The time-stamp format of the dashed grammar: minute precision,
/// twelve-hour clock.
pub const DASHED_FORMAT: &'static str = "%m/%d/%y, %I:%M %p";

/// What chrono's `NaiveDateTime::parse_from_str` makes of `text` under
/// `format`, as whole seconds since 1970-01-01 00:00:00 of the date and time
/// parsed; `None` where chrono rejects the text.
pub uninterp spec fn naive_seconds(text: Seq<char>, format: Seq<char>) -> Option<i64>;

/// Calls chrono's `NaiveDateTime::parse_from_str` on `text` with `format`.
/// Trusted: the result is a function of the two strings alone, `None` where
/// chrono returns an error, else the seconds that `and_utc().timestamp()`
/// gives for the parsed value. Nothing more is claimed of it.
#[verifier::external_body]
pub(crate) fn parse_naive_seconds(text: &str, format: &str) -> (r: Option<i64>)
    ensures
        r == naive_seconds(text@, format@),
{
    match chrono::NaiveDateTime::parse_from_str(text, format) {
        Ok(parsed) => Some(parsed.and_utc().timestamp()),
        Err(_) => None,
    }
}

} // verus!
