//! Calendar days of millisecond timestamps, as `chrono` names them.

use chrono::TimeZone;
use vstd::prelude::*;

verus! {

/// The UTC calendar day of a millisecond Unix timestamp in chrono's
/// `%Y-%m-%d` form, or `None` where chrono has no single date for it.
pub uninterp spec fn utc_calendar_day(millis: i64) -> Option<Seq<char>>;

/// Calls chrono's `Utc.timestamp_millis_opt(millis).single()` and formats
/// the date with `"%Y-%m-%d"`.  The result is `utc_calendar_day(millis)`;
/// which text that is for a given timestamp is not stated.
#[verifier::external_body]
pub(crate) fn format_utc_day(millis: i64) -> (r: Option<String>)
    ensures
        r is Some <==> utc_calendar_day(millis) is Some,
        r matches Some(s) ==> utc_calendar_day(millis) == Some(s@),
{
    match chrono::Utc.timestamp_millis_opt(millis).single() {
        Some(dt) => Some(dt.format("%Y-%m-%d").to_string()),
        None => None,
    }
}

/// The label a timestamp is counted under in daily statistics: its UTC
/// calendar day, or the empty text where there is none.
pub open spec fn day_label(millis: i64) -> Seq<char> {
    match utc_calendar_day(millis) {
        Some(s) => s,
        None => Seq::empty(),
    }
}

/// The daily-statistics label of a timestamp.
pub fn day_label_of(millis: i64) -> (r: String)
    ensures
        r@ == day_label(millis),
{
    match format_utc_day(millis) {
        Some(s) => s,
        None => String::new(),
    }
}

} // verus!
