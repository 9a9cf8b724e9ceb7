//! Message timestamps: RFC 2822 dates read by chrono, kept as plain instants.

use vstd::prelude::*;

verus! {

/// The error chrono reports on text that is not an RFC 2822 date.
#[verifier::external_type_specification]
#[verifier::external_body]
pub struct ExParseError(chrono::ParseError);

/// An instant in time: whole seconds since the Unix epoch and the
/// nanoseconds past that second (above 999,999,999 during a leap second).
pub type Instant = (i64, u32);

/// The instant that `chrono::DateTime::parse_from_rfc2822` reads from `text`,
/// or `None` where it refuses the text.
pub uninterp spec fn rfc2822_instant(text: Seq<char>) -> Option<(i64, u32)>;

/// `a` is strictly later than `b`.
pub open spec fn later(a: Instant, b: Instant) -> bool {
    a.0 > b.0 || (a.0 == b.0 && a.1 > b.1)
}

/// Calls `chrono::DateTime::parse_from_rfc2822` and keeps the instant it
/// names: `timestamp()` and `timestamp_subsec_nanos()` of the result. chrono
/// orders `DateTime` values by their UTC date and time, which is the order
/// of these pairs. Claimed: the result is the named `rfc2822_instant` of the
/// text, and an error exactly where that name is `None`.
#[verifier::external_body]
fn parse_rfc2822(text: &str) -> (res: Result<Instant, chrono::ParseError>)
    ensures
        res is Ok <==> rfc2822_instant(text@) is Some,
        res matches Ok(t) ==> rfc2822_instant(text@) == Some(t),
{
    match chrono::DateTime::parse_from_rfc2822(text) {
        Ok(t) => Ok((t.timestamp(), t.timestamp_subsec_nanos())),
        Err(e) => Err(e),
    }
}

/// A timestamp that is not an RFC 2822 date.
#[derive(Debug)]
pub struct TimestampError;

/// Reads an RFC 2822 timestamp.
pub fn read_timestamp(text: &str) -> (res: Result<Instant, TimestampError>)
    ensures
        res is Ok <==> rfc2822_instant(text@) is Some,
        res matches Ok(t) ==> rfc2822_instant(text@) == Some(t),
{
    match parse_rfc2822(text) {
        Ok(t) => Ok(t),
        Err(_) => Err(TimestampError),
    }
}

/// `a` is strictly later than `b`.
pub fn is_later(a: Instant, b: Instant) -> (res: bool)
    ensures
        res == later(a, b),
{
    a.0 > b.0 || (a.0 == b.0 && a.1 > b.1)
}

} // verus!
