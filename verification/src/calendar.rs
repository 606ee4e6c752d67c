//! The day of the puzzle: one word a day, counted from the first day.

use vstd::prelude::*;
use chrono::{Local, TimeZone};

verus! {

/// The year of the first day.
pub const FIRST_YEAR: i32 = 2021;

/// The month of the first day.
pub const FIRST_MONTH: u32 = 6;

/// The day of the month of the first day.
pub const FIRST_DAY: u32 = 19;

/// The distance of an offset from zero.
pub open spec fn magnitude(offset: i64) -> int {
    if offset >= 0 {
        offset as int
    } else {
        -(offset as int)
    }
}

/// Calls chrono's `Local::today`, `TimeZone::ymd_opt` and
/// `Date::signed_duration_since`: the whole days from the given date to
/// today, by the machine's clock and time zone. `None` where the date is
/// none of the calendar, or not a single one in the time zone. The number
/// depends on the clock, so nothing is said of it.
#[verifier::external_body]
#[allow(deprecated)]
pub(crate) fn days_since(year: i32, month: u32, day: u32) -> (days: Option<i64>) {
    let start = Local.ymd_opt(year, month, day).single()?;
    Some(Local::today().signed_duration_since::<Local>(start).num_days())
}

/// The day that lies `offset` days from the first day, before it or after:
/// the distance, where a `usize` holds it.
pub fn day_index(offset: i64) -> (day: Option<usize>)
    ensures
        day is Some <==> magnitude(offset) <= usize::MAX,
        day matches Some(d) ==> d == magnitude(offset),
{
    let distance: u64 = if offset >= 0 {
        offset as u64
    } else if offset == i64::MIN {
        9223372036854775808u64
    } else {
        (-offset) as u64
    };
    if distance <= usize::MAX as u64 {
        Some(distance as usize)
    } else {
        None
    }
}

/// The day to play: the day asked for, or else the day that the days since
/// the first day give.
pub fn resolve_day(day: Option<usize>, elapsed: Option<i64>) -> (r: Option<usize>)
    ensures
        day is Some ==> r == day,
        day is None && elapsed is None ==> r is None,
        day is None && elapsed is Some ==> {
            &&& r is Some <==> magnitude(elapsed->0) <= usize::MAX
            &&& r matches Some(d) ==> d == magnitude(elapsed->0)
        },
{
    match day {
        Some(d) => Some(d),
        None => match elapsed {
            Some(offset) => day_index(offset),
            None => None,
        },
    }
}

/// The day to play: the day asked for, or else today's, by the machine's
/// clock. Gives back the day asked for whenever there is one.
pub fn day_or_today(day: Option<usize>) -> (r: Option<usize>)
    ensures
        day is Some ==> r == day,
{
    match day {
        Some(d) => Some(d),
        None => resolve_day(None, days_since(FIRST_YEAR, FIRST_MONTH, FIRST_DAY)),
    }
}

} // verus!
