//! Points in time, and their RFC 3339 form.

use crate::text::{opt_view, whitespace};
use vstd::prelude::*;

verus! {

/// A point in time: seconds since the Unix epoch, the nanoseconds after that
/// second, and the offset of the local clock from UTC in seconds.
#[derive(Debug, Clone, Copy, PartialEq, Eq, Structural)]
pub struct Timestamp {
    pub seconds: i64,
    pub nanos: u32,
    pub offset: i32,
}

/// The point in time that an RFC 3339 text names: seconds since the epoch,
/// nanoseconds, offset from UTC.
pub uninterp spec fn rfc3339_instant(text: Seq<char>) -> Option<(i64, u32, i32)>;

/// The RFC 3339 text of a point in time, where the numbers name one.
pub uninterp spec fn rfc3339_text(seconds: i64, nanos: u32, offset: i32) -> Option<Seq<char>>;

/// The point in time that a text names, if it is in RFC 3339 form.
pub open spec fn instant_of(text: Seq<char>) -> Option<Timestamp> {
    match rfc3339_instant(text) {
        Some((seconds, nanos, offset)) => Some(Timestamp { seconds, nanos, offset }),
        None => None,
    }
}

/// Whether a text is one word: not empty, and with no white space in it.
pub open spec fn one_word(text: Seq<char>) -> bool {
    text.len() > 0 && forall|i: int| 0 <= i < text.len() ==> !whitespace(#[trigger] text[i])
}

/// Whether the numbers can be written as an RFC 3339 text that reads back as
/// the same numbers.
pub open spec fn rewritable(seconds: i64, nanos: u32, offset: i32) -> bool {
    &&& rfc3339_text(seconds, nanos, offset) is Some
    &&& rfc3339_instant(rfc3339_text(seconds, nanos, offset)->0) == Some((seconds, nanos, offset))
}

/// `chrono::DateTime::parse_from_rfc3339`: what it makes of a text depends on
/// the text alone. The parsed value is taken apart into its timestamp, its
/// nanoseconds and its offset. A value that was parsed has a year of four
/// digits and an offset of whole minutes, so that it is written in a form that
/// parses to the same value.
#[verifier::external_body]
fn chrono_parse(text: &str) -> (found: Option<(i64, u32, i32)>)
    ensures
        found == rfc3339_instant(text@),
        found matches Some((seconds, nanos, offset)) ==> rewritable(seconds, nanos, offset),
{
    match chrono::DateTime::parse_from_rfc3339(text) {
        Ok(t) => Some((t.timestamp(), t.timestamp_subsec_nanos(), t.offset().local_minus_utc())),
        Err(_) => None,
    }
}

/// `chrono::DateTime::to_rfc3339`: the text depends on the three numbers alone.
/// There is none where the numbers are out of the range that chrono can hold.
/// The text is made of digits, signs, colons, a point and a `T`.
#[verifier::external_body]
fn chrono_format(seconds: i64, nanos: u32, offset: i32) -> (text: Option<String>)
    ensures
        opt_view(text) == rfc3339_text(seconds, nanos, offset),
        text matches Some(t) ==> one_word(t@),
{
    let utc = chrono::DateTime::from_timestamp(seconds, nanos)?;
    let zone = chrono::FixedOffset::east_opt(offset)?;
    Some(utc.with_timezone(&zone).to_rfc3339())
}

/// Whether a text is that of a moment in UTC, and reads as the same moment where
/// its year has four digits, as those from 1970 to 9999 do.
pub open spec fn utc_text(text: Seq<char>, seconds: i64, nanos: u32) -> bool {
    &&& one_word(text)
    &&& rfc3339_text(seconds, nanos, 0) == Some(text)
    &&& 0 <= seconds < 253402300800 ==> rfc3339_instant(text) == Some((seconds, nanos, 0i32))
}

/// `chrono::Utc::now`, written by `to_rfc3339`: the clock decides which moment it
/// is. The text is that of the moment, with no offset from UTC; a year of more
/// than four digits is written with a sign, and is not read back.
#[verifier::external_body]
pub(crate) fn chrono_now() -> (text: String)
    ensures
        exists|seconds: i64, nanos: u32| #[trigger] utc_text(text@, seconds, nanos),
{
    chrono::Utc::now().to_rfc3339()
}

impl Timestamp {
    /// Whether the point in time can be written and read back.
    pub open spec fn readable(self) -> bool {
        rewritable(self.seconds, self.nanos, self.offset)
    }

    /// Reads a text in RFC 3339 form.
    pub fn parse(text: &str) -> (found: Option<Timestamp>)
        ensures
            found == instant_of(text@),
            found matches Some(t) ==> t.readable(),
    {
        match chrono_parse(text) {
            Some((seconds, nanos, offset)) => Some(Timestamp { seconds, nanos, offset }),
            None => None,
        }
    }

    /// Writes the point in time in RFC 3339 form.
    pub fn to_rfc3339(self) -> (text: Option<String>)
        ensures
            opt_view(text) == rfc3339_text(self.seconds, self.nanos, self.offset),
            text matches Some(t) ==> one_word(t@),
    {
        chrono_format(self.seconds, self.nanos, self.offset)
    }

    /// Whether `self` is earlier than `other`, whatever the offsets.
    pub open spec fn earlier(self, other: Timestamp) -> bool {
        self.seconds < other.seconds || (self.seconds == other.seconds && self.nanos < other.nanos)
    }

    /// Whether this instant lies before the other one.
    pub fn is_earlier(self, other: Timestamp) -> (b: bool)
        ensures
            b == self.earlier(other),
    {
        self.seconds < other.seconds || (self.seconds == other.seconds && self.nanos < other.nanos)
    }
}

} // verus!
