//! Times as text: dates with time of day and offset, as RFC 3339 writes
//! them.

use vstd::prelude::*;
use crate::models::common::{TimeWindow, Timestamp};

verus! {

/// The seconds since the epoch that a text names, if the text is a date
/// and time as RFC 3339 writes them.
pub uninterp spec fn rfc3339_timestamp(text: Seq<char>) -> Option<i64>;

/// `chrono::DateTime::parse_from_rfc3339`, followed by
/// `chrono::DateTime::timestamp` on what was parsed: the seconds since the
/// epoch of the date and time that the text names, and nothing for a text
/// that `chrono` does not take.
#[verifier::external_body]
pub(crate) fn parse_rfc3339(text: &str) -> (timestamp: Option<i64>)
    ensures
        timestamp == rfc3339_timestamp(text@),
{
    match chrono::DateTime::parse_from_rfc3339(text) {
        Ok(time) => Some(time.timestamp()),
        Err(_) => None,
    }
}

/// Reads a time that is known to be well written.
pub fn parse_time(time: &String) -> (timestamp: Timestamp)
    requires
        rfc3339_timestamp(time@) is Some,
    ensures
        Some(timestamp) == rfc3339_timestamp(time@),
{
    parse_rfc3339(time.as_str()).unwrap()
}

/// Reads a time; there is no result for a text that is not a time.
pub fn try_parse_time(time: &String) -> (timestamp: Option<Timestamp>)
    ensures
        timestamp == rfc3339_timestamp(time@),
{
    match parse_rfc3339(time.as_str()) {
        Some(_) => Some(parse_time(time)),
        None => None,
    }
}

/// The time window that a pair of times names.
pub open spec fn spec_time_window(tw: Seq<String>) -> Option<TimeWindow> {
    if tw.len() == 2 {
        match (rfc3339_timestamp(tw[0]@), rfc3339_timestamp(tw[1]@)) {
            (Some(start), Some(end)) => Some(TimeWindow { start, end }),
            _ => None,
        }
    } else {
        None
    }
}

/// Reads a time window that is known to be a pair of well written times.
pub fn parse_time_window(tw: &Vec<String>) -> (window: TimeWindow)
    requires
        spec_time_window(tw@) is Some,
    ensures
        Some(window) == spec_time_window(tw@),
{
    TimeWindow::new(parse_time(&tw[0]), parse_time(&tw[1]))
}

/// Reads a time window; there is no result unless the list is a pair of
/// times.
pub fn try_parse_time_window(tw: &Vec<String>) -> (window: Option<TimeWindow>)
    ensures
        window == spec_time_window(tw@),
{
    if tw.len() != 2 {
        return None;
    }
    match (try_parse_time(&tw[0]), try_parse_time(&tw[1])) {
        (Some(_), Some(_)) => Some(parse_time_window(tw)),
        _ => None,
    }
}

} // verus!
