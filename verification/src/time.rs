//! Event timestamps: RFC 3339 text parsed with `chrono` and seen in the local time zone.

use chrono::{DateTime, Datelike, Local, TimeDelta, Timelike};
use vstd::prelude::*;

use crate::date::Date;

verus! {

/// A point in time as the logic reads it: the instant, and its wall clock in the
/// local time zone.
#[derive(Clone, Copy, Debug, PartialEq, Eq, Structural)]
pub struct EventTime {
    /// Seconds since the Unix epoch.
    pub unix_secs: i64,
    /// Nanoseconds within the second (at least one billion inside a leap second).
    pub nanos: u32,
    /// Local calendar date.
    pub date: Date,
    /// Local hour.
    pub hour: u32,
    /// Local minute.
    pub minute: u32,
    /// Local second.
    pub second: u32,
    /// Local calendar date one nanosecond before this instant.
    pub date_before: Date,
}

impl EventTime {
    pub open spec fn wf(self) -> bool {
        &&& self.date.wf()
        &&& self.date_before.wf()
        &&& self.hour < 24
        &&& self.minute < 60
        &&& self.second < 60
        &&& self.nanos < 2_000_000_000
    }

    /// The local wall clock reads exactly midnight.
    pub open spec fn spec_is_midnight(self) -> bool {
        self.hour == 0 && self.minute == 0 && self.second == 0 && self.nanos == 0
    }

    /// Whether the local wall clock reads exactly midnight (`00:00:00.000000000`).
    pub fn is_midnight(&self) -> (r: bool)
        ensures
            r == self.spec_is_midnight(),
    {
        self.hour == 0 && self.minute == 0 && self.second == 0 && self.nanos == 0
    }

    /// Whether this instant comes strictly before `other`.
    pub fn is_before(&self, other: &EventTime) -> (r: bool)
        ensures
            r == instant_lt(*self, *other),
    {
        self.unix_secs < other.unix_secs || (self.unix_secs == other.unix_secs && self.nanos
            < other.nanos)
    }
}

/// Strict order of instants.
pub open spec fn instant_lt(a: EventTime, b: EventTime) -> bool {
    a.unix_secs < b.unix_secs || (a.unix_secs == b.unix_secs && a.nanos < b.nanos)
}

/// What an RFC 3339 timestamp determines by itself: its date in its own UTC offset and
/// the instant it denotes.
#[derive(Clone, Copy, Debug, PartialEq, Eq, Structural)]
pub struct Rfc3339Fields {
    pub date: Date,
    pub unix_secs: i64,
    pub nanos: u32,
}

/// The fields of the RFC 3339 timestamp `text`, `None` when it does not parse.
pub uninterp spec fn rfc3339_fields(text: Seq<char>) -> Option<Rfc3339Fields>;

/// A parsed timestamp: its date as written, and the instant seen in the local time zone.
#[derive(Clone, Copy, Debug, PartialEq, Eq, Structural)]
pub struct ParsedTime {
    /// The date in the timestamp's own UTC offset.
    pub civil_date: Date,
    /// The instant in the local time zone.
    pub local: EventTime,
}

/// Parses `value` with `chrono::DateTime::parse_from_rfc3339`, converts it to the local
/// time zone with `with_timezone(&Local)`, and reads the local date one nanosecond
/// earlier with chrono's subtraction of a `TimeDelta`.
/// Claimed: the result is `None` exactly when the text does not parse; otherwise the
/// date as written and the instant are those the text determines (`rfc3339_fields`),
/// and the local fields form a valid wall clock. Which local date and time come out
/// depends on the machine's time zone, so nothing more is said of them. RFC 3339 years
/// have four digits, so moving by the time zone or by one nanosecond stays in chrono's
/// range.
#[verifier::external_body]
pub(crate) fn parse_event_time(value: &str) -> (r: Option<ParsedTime>)
    ensures
        match r {
            None => rfc3339_fields(value@) is None,
            Some(p) => {
                &&& rfc3339_fields(value@) == Some(
                    Rfc3339Fields { date: p.civil_date, unix_secs: p.local.unix_secs, nanos: p.local.nanos },
                )
                &&& p.civil_date.wf()
                &&& p.local.wf()
            },
        },
{
    let t = DateTime::parse_from_rfc3339(value).ok()?;
    let l = t.with_timezone(&Local);
    let b = l - TimeDelta::nanoseconds(1);
    Some(ParsedTime {
        civil_date: Date { year: t.year(), month: t.month(), day: t.day() },
        local: EventTime {
            unix_secs: l.timestamp(), nanos: l.timestamp_subsec_nanos(),
            date: Date { year: l.year(), month: l.month(), day: l.day() },
            hour: l.hour(), minute: l.minute(), second: l.second(),
            date_before: Date { year: b.year(), month: b.month(), day: b.day() },
        },
    })
}

} // verus!
