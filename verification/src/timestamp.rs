//! Reading a date and time with an offset from its RFC 3339 text.

use vstd::prelude::*;
use crate::activity::Instant;

verus! {

/// The error with which `chrono` refuses a text. Nothing is read from it.
#[verifier::external_type_specification]
#[verifier::external_body]
pub struct ExParseError(chrono::ParseError);

/// What `chrono::DateTime::parse_from_rfc3339` makes of a text: the instant
/// it names, or `None` where the text is refused.
pub uninterp spec fn rfc3339_reading(text: Seq<char>) -> Option<Instant>;

/// Calls `chrono::DateTime::parse_from_rfc3339` on `text`.
///
/// Believed, not proved: the outcome depends on the text alone, so it is
/// `rfc3339_reading` of the text. An accepted text gives its instant as the
/// seconds and nanoseconds that `DateTime::timestamp` and
/// `DateTime::timestamp_subsec_nanos` report, with the offset that the text
/// carries, as `FixedOffset::local_minus_utc` reports it.
#[verifier::external_body]
pub(crate) fn parse_rfc3339(text: &str) -> (r: Result<Instant, chrono::ParseError>)
    ensures
        r matches Ok(instant) ==> rfc3339_reading(text@) == Some(instant),
        r is Err ==> rfc3339_reading(text@) is None,
{
    chrono::DateTime::parse_from_rfc3339(text).map(|dt| Instant {
        secs: dt.timestamp(),
        nanos: dt.timestamp_subsec_nanos(),
        offset: dt.offset().local_minus_utc(),
    })
}

/// Reads an RFC 3339 date and time, such as `2021-03-04T17:45:00+01:00`.
/// Returns the instant that the text names, or `None` where the text is not
/// a date and time of that form.
pub fn read_rfc3339(text: &str) -> (r: Option<Instant>)
    ensures
        r == rfc3339_reading(text@),
{
    match parse_rfc3339(text) {
        Ok(instant) => Some(instant),
        Err(_) => None,
    }
}

} // verus!
