//! Points in time, read from the compact date and time tokens of a file name.

use crate::name::{all_decimal_digits, is_decimal_digit};
use vstd::prelude::*;
use vstd::string::*;

verus! {

/// Number of characters in a compact date-time: `YYYYMMDDHHMMSS`.
pub const COMPACT_LENGTH: usize = 14;

/// An absolute date and time, as whole seconds since 1970-01-01T00:00:00.
#[derive(Clone, Copy, Debug, PartialEq, Eq, Structural)]
pub struct Timestamp {
    pub seconds: i64,
}

/// Whether a text has the shape of the fixed pattern: exactly fourteen
/// decimal digits and nothing else.
pub open spec fn is_compact_shape(text: Seq<char>) -> bool {
    &&& text.len() == COMPACT_LENGTH
    &&& all_decimal_digits(text)
}

/// What the calendar makes of a text read as year, month, day, hour, minute
/// and second: the seconds since 1970-01-01T00:00:00 of that date and time,
/// or nothing where the text names no date and time.
pub uninterp spec fn calendar_seconds(text: Seq<char>) -> Option<i64>;

/// The point in time that a date token and a time token name together.
///
/// The two tokens are joined without a separator. Unless the joined text is
/// fourteen digits long there is no timestamp; otherwise the calendar decides.
pub open spec fn combined(date: Seq<char>, time: Seq<char>) -> Option<Timestamp> {
    if is_compact_shape(date + time) {
        match calendar_seconds(date + time) {
            Some(seconds) => Some(Timestamp { seconds }),
            None => None,
        }
    } else {
        None
    }
}

/// Calls `chrono::NaiveDateTime::parse_from_str` with the pattern
/// `%Y%m%d%H%M%S` and, where it accepts the text, reads the date and time as
/// seconds since 1970-01-01T00:00:00 with `DateTime::timestamp` on its UTC
/// reading. Both are pure functions of the text, which is all the contract
/// claims: the outcome is the one that `calendar_seconds` names.
#[verifier::external_body]
fn read_calendar(text: &str) -> (seconds: Option<i64>)
    ensures
        seconds == calendar_seconds(text@),
{
    match chrono::NaiveDateTime::parse_from_str(text, "%Y%m%d%H%M%S") {
        Ok(moment) => Some(moment.and_utc().timestamp()),
        Err(_) => None,
    }
}

/// Checks that a text is fourteen decimal digits.
pub fn has_compact_shape(text: &str) -> (ok: bool)
    ensures
        ok == is_compact_shape(text@),
{
    if text.unicode_len() != COMPACT_LENGTH {
        return false;
    }
    let mut i: usize = 0;
    while i < COMPACT_LENGTH
        invariant
            i <= COMPACT_LENGTH,
            text@.len() == COMPACT_LENGTH,
            forall|k: int| 0 <= k < i ==> is_decimal_digit(#[trigger] text@[k]),
        decreases COMPACT_LENGTH - i,
    {
        let c = text.get_char(i);
        if !('0' <= c && c <= '9') {
            return false;
        }
        i += 1;
    }
    true
}

/// Gives the timestamp for a text that has the fixed shape, from what the
/// calendar made of it.
pub fn timestamp_from_calendar(seconds: Option<i64>) -> (stamp: Option<Timestamp>)
    ensures
        stamp == match seconds {
            Some(s) => Some(Timestamp { seconds: s }),
            None => None::<Timestamp>,
        },
{
    match seconds {
        Some(s) => Some(Timestamp { seconds: s }),
        None => None,
    }
}

/// Joins a date token and a time token and reads them against the fixed
/// pattern `YYYYMMDDHHMMSS`. A text of any other shape, or one that names no
/// date and time, gives no timestamp; the outcome is never an error.
pub fn combine_timestamp(date: &str, time: &str) -> (stamp: Option<Timestamp>)
    ensures
        stamp == combined(date@, time@),
        !is_compact_shape(date@ + time@) ==> stamp is None,
{
    let joined = String::from_str(date).concat(time);
    if has_compact_shape(joined.as_str()) {
        timestamp_from_calendar(read_calendar(joined.as_str()))
    } else {
        None
    }
}

} // verus!
