//! The wall clock, behind trusted items: creation dates and timestamps
//! come from here. Nothing is assumed of the values, so every caller's
//! contract holds whatever instant the clock reports.

use vstd::prelude::*;

verus! {

/// Relies on chrono's `Local::now()` and `DateTime::timestamp_millis`:
/// the current instant as milliseconds since the epoch. The value depends
/// on the clock, so nothing is stated of it.
#[verifier::external_body]
pub(crate) fn now_timestamp_millis() -> i64 {
    chrono::Local::now().timestamp_millis()
}

/// Relies on chrono's `Local::now()` and `DateTime::format` with the
/// pattern `%a %b %e %Y`: a human-readable form of today's date. The value
/// depends on the clock and time zone, so nothing is stated of it.
#[verifier::external_body]
pub(crate) fn today_date_string() -> String {
    chrono::Local::now().format("%a %b %e %Y").to_string()
}

} // verus!
