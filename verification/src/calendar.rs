//! Calendar days as day numbers: day 1 is January 1 of year 1 in the
//! proleptic Gregorian calendar (chrono's `num_days_from_ce`), so the next
//! day is one more and the weekday is the day number modulo seven.

use chrono::Datelike;
use vstd::prelude::*;

verus! {

/// The day number that chrono parses from `s` with the format "%Y-%m-%d",
/// or `None` when chrono rejects it.
pub uninterp spec fn iso_day_number(s: Seq<char>) -> Option<int>;

/// Calls `chrono::NaiveDate::parse_from_str(s, "%Y-%m-%d")` and converts a
/// parsed date with `Datelike::num_days_from_ce`. The contract ties the result
/// to `iso_day_number` of the text. chrono keeps years within
/// `MIN_YEAR..=MAX_YEAR` (about 262 thousand years either side of year 1),
/// so a day number is below 10^8 in magnitude.
#[verifier::external_body]
pub(crate) fn parse_ymd(s: &str) -> (r: Option<i32>)
    ensures
        match r {
            Some(d) => iso_day_number(s@) == Some(d as int) && -100_000_000 < d < 100_000_000,
            None => iso_day_number(s@) is None,
        },
{
    match chrono::NaiveDate::parse_from_str(s, "%Y-%m-%d") {
        Ok(date) => Some(date.num_days_from_ce()),
        Err(_) => None,
    }
}

/// Weekday of day number `d`, counted from Sunday (Sunday 0, Monday 1, …,
/// Saturday 6). Day 1, January 1 of year 1, is a Monday.
pub open spec fn weekday_of(d: int) -> int {
    d % 7
}

/// `weekday().num_days_from_sunday()` of the date with day number `day`.
pub fn weekday_from_sunday(day: i32) -> (w: u32)
    ensures
        w == weekday_of(day as int),
        w < 7,
{
    let v = (day as i64 + 15_032_385_536i64) as u64;
    (v % 7) as u32
}

} // verus!
