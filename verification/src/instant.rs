//! Points in time.

use chrono::{DateTime, Utc};
use vstd::prelude::*;

verus! {

/// What `chrono` writes for the instant `seconds` and `nanos` after the start
/// of 1970 in UTC under `pattern`; nothing where the instant lies outside its
/// calendar.
pub uninterp spec fn formatted_instant(seconds: i64, nanos: u32, pattern: Seq<char>) -> Option<
    Seq<char>,
>;

/// Formats an instant with `chrono::DateTime::from_timestamp` and `format`. A
/// pattern that `chrono` does not know would make it panic, so only the two
/// patterns used here are let through.
#[verifier::external_body]
fn format_instant(seconds: i64, nanos: u32, pattern: &str) -> (text: Option<String>)
    requires
        pattern@ == "%Y-%m-%d"@ || pattern@ == "%Y-%m-%dT%H:%M:%S"@,
    ensures
        match text {
            Some(found) => formatted_instant(seconds, nanos, pattern@) == Some(found@),
            None => formatted_instant(seconds, nanos, pattern@) is None,
        },
{
    DateTime::from_timestamp(seconds, nanos).map(|instant| instant.format(pattern).to_string())
}

/// `seconds` and `nanos` are an instant of the calendar: the nanoseconds make
/// up less than a second, and the instant can be written, as a date and as a
/// date with a time.
pub open spec fn in_calendar(seconds: i64, nanos: u32) -> bool {
    &&& nanos < 1_000_000_000
    &&& formatted_instant(seconds, nanos, "%Y-%m-%d"@) is Some
    &&& formatted_instant(seconds, nanos, "%Y-%m-%dT%H:%M:%S"@) is Some
}

/// Reads the clock with `chrono::Utc::now`: its `timestamp`, in whole seconds
/// since the start of 1970, and its `timestamp_subsec_nanos`. It takes the
/// nanoseconds from a `std::time::Duration`, so they stay below a second.
/// `chrono::DateTime::from_timestamp` takes both numbers back, so the instant
/// can be formatted. Which instant it is depends on the clock; one that stands
/// before 1970 makes `Utc::now` panic.
#[verifier::external_body]
fn read_clock() -> (reading: (i64, u32))
    ensures
        in_calendar(reading.0, reading.1),
{
    let now = Utc::now();
    (now.timestamp(), now.timestamp_subsec_nanos())
}

/// A point in time: seconds and nanoseconds since the start of 1970 in UTC.
#[derive(Copy, Clone, Debug, PartialEq, Eq, PartialOrd, Ord, Structural)]
pub struct DateTimeValue {
    /// Whole seconds.
    pub seconds: i64,
    /// Nanoseconds beyond the whole seconds.
    pub nanos: u32,
}

impl DateTimeValue {
    /// The current time, as the clock of the system gives it. It can be
    /// written with [`Self::to_date_string`] and [`Self::to_datetime_string`].
    pub fn now() -> (value: Self)
        ensures
            in_calendar(value.seconds, value.nanos),
    {
        let (seconds, nanos) = read_clock();
        DateTimeValue { seconds, nanos }
    }

    /// The date without a time.
    pub fn to_date_string(&self) -> (text: Option<String>)
        ensures
            match text {
                Some(found) => formatted_instant(self.seconds, self.nanos, "%Y-%m-%d"@) == Some(
                    found@,
                ),
                None => formatted_instant(self.seconds, self.nanos, "%Y-%m-%d"@) is None,
            },
    {
        format_instant(self.seconds, self.nanos, "%Y-%m-%d")
    }

    /// The date and time without a UTC offset.
    pub fn to_datetime_string(&self) -> (text: Option<String>)
        ensures
            match text {
                Some(found) => formatted_instant(self.seconds, self.nanos, "%Y-%m-%dT%H:%M:%S"@)
                    == Some(found@),
                None => formatted_instant(self.seconds, self.nanos, "%Y-%m-%dT%H:%M:%S"@) is None,
            },
    {
        format_instant(self.seconds, self.nanos, "%Y-%m-%dT%H:%M:%S")
    }
}

} // verus!
