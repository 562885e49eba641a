//! Points in time: the wall-clock stamp in a measurement file's name, and the
//! instant at which a file was last modified.

use chrono::{DateTime, Datelike, NaiveDateTime, Timelike};
use vstd::prelude::*;
use crate::text::{strip_affixes, stripped};

verus! {

/// Leading part of a measurement file's name.
pub const MEASUREMENT_PREFIX: &'static str = "measurement_";

/// Extension of every record file.
pub const RECORD_SUFFIX: &'static str = ".cbor";

/// Layout of the stamp between the two, in the notation of `chrono`: year
/// of the century, month, day, hour, minute and second.
pub const STAMP_FORMAT: &'static str = "%y%m%d%H%M%S";

/// A calendar date and time of day without a time zone, as the benchmarking
/// tool read it off the local clock.
#[derive(Clone, Copy, Debug, PartialEq, Eq, Structural)]
pub struct LocalStamp {
    pub year: i32,
    pub month: u32,
    pub day: u32,
    pub hour: u32,
    pub minute: u32,
    pub second: u32,
    pub nanosecond: u32,
}

impl LocalStamp {
    /// `self` is strictly earlier than `other`, field by field from the year
    /// down.
    pub open spec fn earlier_than(self, other: LocalStamp) -> bool {
        if self.year != other.year {
            self.year < other.year
        } else if self.month != other.month {
            self.month < other.month
        } else if self.day != other.day {
            self.day < other.day
        } else if self.hour != other.hour {
            self.hour < other.hour
        } else if self.minute != other.minute {
            self.minute < other.minute
        } else if self.second != other.second {
            self.second < other.second
        } else {
            self.nanosecond < other.nanosecond
        }
    }

    pub fn is_earlier_than(&self, other: &LocalStamp) -> (earlier: bool)
        ensures
            earlier == self.earlier_than(*other),
    {
        if self.year != other.year {
            self.year < other.year
        } else if self.month != other.month {
            self.month < other.month
        } else if self.day != other.day {
            self.day < other.day
        } else if self.hour != other.hour {
            self.hour < other.hour
        } else if self.minute != other.minute {
            self.minute < other.minute
        } else if self.second != other.second {
            self.second < other.second
        } else {
            self.nanosecond < other.nanosecond
        }
    }
}

/// Of two stamps that differ, one is earlier than the other; none is earlier
/// than itself.
pub proof fn lemma_earlier_total(a: LocalStamp, b: LocalStamp)
    ensures
        a == b || a.earlier_than(b) || b.earlier_than(a),
        !(a.earlier_than(b) && b.earlier_than(a)),
        !a.earlier_than(a),
{
}

/// What is earlier than something earlier is earlier; what is not earlier
/// than the later of two stamps is not earlier than the other; and what is
/// earlier than a stamp is earlier than whatever that stamp is not later
/// than.
pub proof fn lemma_earlier_transitive(a: LocalStamp, b: LocalStamp, c: LocalStamp)
    ensures
        a.earlier_than(b) && b.earlier_than(c) ==> a.earlier_than(c),
        a.earlier_than(b) && !a.earlier_than(c) ==> !b.earlier_than(c),
        a.earlier_than(b) && !c.earlier_than(b) ==> a.earlier_than(c),
{
}

/// What `chrono::NaiveDateTime::parse_from_str` makes of `text` under
/// `format`, by its calendar fields; `None` where it reports an error.
pub uninterp spec fn naive_datetime_parse(text: Seq<char>, format: Seq<char>) -> Option<LocalStamp>;

/// Calls `chrono::NaiveDateTime::parse_from_str` with the format of the
/// stamp and copies the fields of the date and time it returns. The parser is
/// a function of its two arguments alone; nothing more is claimed of what it
/// accepts.
#[verifier::external_body]
fn parse_naive_datetime(text: &str, format: &str) -> (stamp: Option<LocalStamp>)
    requires
        format@ == STAMP_FORMAT@,
    ensures
        stamp == naive_datetime_parse(text@, format@),
{
    match NaiveDateTime::parse_from_str(text, format) {
        Ok(t) => Some(
            LocalStamp {
                year: t.year(),
                month: t.month(),
                day: t.day(),
                hour: t.hour(),
                minute: t.minute(),
                second: t.second(),
                nanosecond: t.nanosecond(),
            },
        ),
        Err(_) => None,
    }
}

/// The stamp that a file name carries: the name is `measurement_`, a stamp
/// that parses, and `.cbor`.
pub open spec fn measurement_stamp(name: Seq<char>) -> Option<LocalStamp> {
    match stripped(name, MEASUREMENT_PREFIX@, RECORD_SUFFIX@) {
        Some(digits) => naive_datetime_parse(digits, STAMP_FORMAT@),
        None => None,
    }
}

/// Reads the date and time at which a measurement was taken off the name of
/// its file.
pub fn parse_measurement_datetime(file_name: &str) -> (stamp: Option<LocalStamp>)
    ensures
        stamp == measurement_stamp(file_name@),
{
    match strip_affixes(file_name, MEASUREMENT_PREFIX, RECORD_SUFFIX) {
        Some(digits) => parse_naive_datetime(digits, STAMP_FORMAT),
        None => None,
    }
}

/// An instant on the universal time line: whole seconds since the start of
/// 1970 and the nanoseconds past that second.
#[derive(Clone, Copy, Debug, PartialEq, Eq, Structural)]
pub struct ModTime {
    pub seconds: i64,
    pub nanos: u32,
}

impl ModTime {
    /// `self` is strictly later than `other`.
    pub open spec fn later_than(self, other: ModTime) -> bool {
        self.seconds > other.seconds || (self.seconds == other.seconds && self.nanos > other.nanos)
    }

    pub fn is_later_than(&self, other: &ModTime) -> (later: bool)
        ensures
            later == self.later_than(*other),
    {
        self.seconds > other.seconds || (self.seconds == other.seconds && self.nanos > other.nanos)
    }
}

/// The instant that `chrono::DateTime::parse_from_rfc3339` reads from `text`;
/// `None` where it reports an error.
pub uninterp spec fn rfc3339_instant(text: Seq<char>) -> Option<ModTime>;

/// Calls `chrono::DateTime::parse_from_rfc3339` and returns the instant by
/// `timestamp` and `timestamp_subsec_nanos`, the pair by which chrono itself
/// orders two instants.
#[verifier::external_body]
pub(crate) fn parse_rfc3339(text: &str) -> (instant: Option<ModTime>)
    ensures
        instant == rfc3339_instant(text@),
{
    match DateTime::parse_from_rfc3339(text) {
        Ok(t) => Some(ModTime { seconds: t.timestamp(), nanos: t.timestamp_subsec_nanos() }),
        Err(_) => None,
    }
}

} // verus!
