//! Filesystem times, handed in as seconds since the Unix epoch, turned into
//! the library's calendar form and into the `YYYY-MM-DD HH:MM:SS` strings
//! that the resolver chains fall back on.
//!
//! The calendar arithmetic itself is chrono's; it stands behind one trusted
//! wrapper whose result is named by `civil_of`.

use vstd::prelude::*;
use crate::date::{Timestamp, timestamp_seq, format_timestamp, parts_valid};
use chrono::{Datelike, Timelike};

verus! {

/// The civil UTC calendar form of a count of seconds since the Unix epoch,
/// as chrono computes it: year, month, day, hour, minute, second; nothing
/// for counts outside chrono's representable range.
pub uninterp spec fn civil_of(secs: i64) -> Option<(i64, u64, u64, u64, u64, u64)>;

/// Relies on chrono's `DateTime::<Utc>::from_timestamp` and its `Datelike` /
/// `Timelike` accessors: the civil UTC calendar form of a second count. The
/// result is a function of the count alone; `None` comes exactly on counts
/// chrono cannot represent.
#[verifier::external_body]
fn civil_from_unix(secs: i64) -> (r: Option<(i64, u64, u64, u64, u64, u64)>)
    ensures
        r == civil_of(secs),
{
    match chrono::DateTime::<chrono::Utc>::from_timestamp(secs, 0) {
        None => None,
        Some(dt) => Some((
            dt.year() as i64,
            dt.month() as u64,
            dt.day() as u64,
            dt.hour() as u64,
            dt.minute() as u64,
            dt.second() as u64,
        )),
    }
}

/// The calendar form of a second count, when its civil form lies in the
/// library's range (years 0 through 9999) and is a well-formed date.
pub open spec fn timestamp_of_unix(secs: i64) -> Option<Timestamp> {
    match civil_of(secs) {
        None => None,
        Some((y, mo, d, h, mi, s)) => {
            let ts = Timestamp {
                year: y as u64,
                month: mo,
                day: d,
                hour: h,
                minute: mi,
                second: s,
            };
            if 0 <= y <= 9999 && ts.wf() {
                Some(ts)
            } else {
                None
            }
        },
    }
}

/// The `YYYY-MM-DD HH:MM:SS` rendering of a second count; what the
/// filesystem-time fallback of both resolver chains yields.
pub open spec fn unix_time_string(secs: i64) -> Option<Seq<char>> {
    match timestamp_of_unix(secs) {
        None => None,
        Some(ts) => Some(timestamp_seq(ts)),
    }
}

/// Turns a filesystem time into the library's calendar form.
pub fn timestamp_from_unix(secs: i64) -> (r: Option<Timestamp>)
    ensures
        r == timestamp_of_unix(secs),
{
    match civil_from_unix(secs) {
        None => None,
        Some((y, mo, d, h, mi, s)) => {
            if 0 <= y && y <= 9999 {
                let ts = Timestamp { year: y as u64, month: mo, day: d, hour: h, minute: mi, second: s };
                if parts_valid(ts.year, ts.month, ts.day, ts.hour, ts.minute, ts.second) {
                    Some(ts)
                } else {
                    None
                }
            } else {
                None
            }
        },
    }
}

/// Renders a filesystem time as `YYYY-MM-DD HH:MM:SS`.
pub fn get_time_from_unix(secs: i64) -> (r: Option<String>)
    ensures
        match r {
            Some(s) => unix_time_string(secs) == Some(s@),
            None => unix_time_string(secs) is None,
        },
{
    match timestamp_from_unix(secs) {
        None => None,
        Some(ts) => Some(format_timestamp(&ts)),
    }
}

} // verus!
