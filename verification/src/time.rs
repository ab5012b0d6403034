//! Naive date-times as plain integers, the retention window, and the calls
//! into `chrono` that parse a stamp and read the clock.

use vstd::prelude::*;

verus! {

/// A date-time without time zone: whole seconds since 1970-01-01 00:00:00
/// and the nanoseconds past that second. A leap second is held the way
/// `chrono` holds it, as second 59 with 1_000_000_000 nanoseconds or more.
#[derive(Clone, Copy, Debug)]
pub struct Timestamp {
    pub secs: i64,
    pub nanos: u32,
}

/// Seconds in one day.
pub open spec fn day_secs() -> int {
    86_400
}

/// `a` is strictly later than `b`: by seconds, then by nanoseconds.
pub open spec fn later(a: (int, int), b: (int, int)) -> bool {
    a.0 > b.0 || (a.0 == b.0 && a.1 > b.1)
}

/// The instant `days` whole days before `now`.
pub open spec fn cutoff(now: (int, int), days: int) -> (int, int) {
    (now.0 - day_secs() * days, now.1)
}

/// `t` lies inside the window that ends at `now` and is `days` days long:
/// strictly after `now - days`.
pub open spec fn in_window(t: (int, int), now: (int, int), days: int) -> bool {
    later(t, cutoff(now, days))
}

/// The text layout of every stamp, in the log files and in the ledger.
pub open spec fn stamp_format() -> Seq<char> {
    "%Y/%m/%d %H:%M:%S"@
}

/// What `chrono` reads from `text` under `format`: seconds and nanoseconds
/// of the date-time, or `None` where the text does not parse.
pub uninterp spec fn parsed_datetime(text: Seq<char>, format: Seq<char>) -> Option<(int, int)>;

/// The stamp that `text` holds under the fixed layout, if any.
pub open spec fn stamp_of(text: Seq<char>) -> Option<(int, int)> {
    parsed_datetime(text, stamp_format())
}

impl View for Timestamp {
    type V = (int, int);

    open spec fn view(&self) -> (int, int) {
        (self.secs as int, self.nanos as int)
    }
}

impl Timestamp {
    /// Whether `self` is strictly later than `other`.
    pub fn is_after(&self, other: &Timestamp) -> (out: bool)
        ensures
            out == later(self@, other@),
    {
        self.secs > other.secs || (self.secs == other.secs && self.nanos > other.nanos)
    }

    /// Whether `self` is strictly later than `now - days`.
    pub fn within(&self, now: &Timestamp, days: i64) -> (out: bool)
        ensures
            out == in_window(self@, now@, days as int),
    {
        let limit: i128 = now.secs as i128 - 86_400i128 * (days as i128);
        let secs: i128 = self.secs as i128;
        secs > limit || (secs == limit && self.nanos > now.nanos)
    }
}

/// Calls `chrono::NaiveDateTime::parse_from_str`. The contract names the
/// outcome `parsed_datetime` and claims only that equal text and format give
/// an equal outcome; the date-time comes back as its seconds since 1970 and
/// its nanoseconds, which order as `chrono` orders date-times.
#[verifier::external_body]
fn parse_naive(text: &str, format: &str) -> (out: Option<Timestamp>)
    ensures
        match out {
            Some(t) => parsed_datetime(text@, format@) == Some(t@),
            None => parsed_datetime(text@, format@) is None,
        },
{
    match chrono::NaiveDateTime::parse_from_str(text, format) {
        Ok(t) => Some(
            Timestamp {
                secs: t.and_utc().timestamp(),
                nanos: t.and_utc().timestamp_subsec_nanos(),
            },
        ),
        Err(_) => None,
    }
}

/// Parses a stamp written as `YYYY/MM/DD HH:MM:SS`.
pub fn parse_timestamp(text: &str) -> (out: Option<Timestamp>)
    ensures
        match out {
            Some(t) => stamp_of(text@) == Some(t@),
            None => stamp_of(text@) is None,
        },
{
    parse_naive(text, "%Y/%m/%d %H:%M:%S")
}

/// Calls `chrono::Local::now` and takes the naive local date-time. Nothing
/// is claimed of the result: it is whatever the clock and the time zone say.
#[verifier::external_body]
pub(crate) fn naive_local_now() -> Timestamp {
    let t = chrono::Local::now().naive_local();
    Timestamp { secs: t.and_utc().timestamp(), nanos: t.and_utc().timestamp_subsec_nanos() }
}

/// Calls `chrono::Local::now` and takes its seconds since the Unix epoch.
/// Nothing is claimed of the result.
#[verifier::external_body]
pub(crate) fn epoch_now() -> i64 {
    chrono::Local::now().timestamp()
}

} // verus!
