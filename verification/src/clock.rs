//! Instants: the clock, and the text of an instant.
//!
//! An instant is a count of nanoseconds since the Unix epoch. Reading the
//! clock and converting between an instant and its RFC 3339 text is left
//! to the `time` crate, through three functions whose contracts are taken
//! on trust.

use crate::state::Timestamp;
use vstd::prelude::*;

verus! {

/// The RFC 3339 text that the `time` crate writes for an instant, if it
/// writes one: it writes none for a year before 0 or after 9999.
pub uninterp spec fn rfc3339_text(unix_nanos: int) -> Option<Seq<char>>;

/// The instant that the `time` crate reads from an RFC 3339 text, if it
/// reads one.
pub uninterp spec fn rfc3339_instant(text: Seq<char>) -> Option<int>;

/// The instant has a text, and the text gives the instant back.
pub open spec fn survives_text(unix_nanos: int) -> bool {
    rfc3339_text(unix_nanos) matches Some(text) && rfc3339_instant(text) == Some(unix_nanos)
}

/// The current instant, read from the system clock by
/// `time::OffsetDateTime::now_utc` and counted in nanoseconds since the
/// Unix epoch by `OffsetDateTime::unix_timestamp_nanos`. Nothing is
/// claimed of the instant: not even that it is later than the last one read.
#[verifier::external_body]
pub(crate) fn utc_now() -> Timestamp {
    Timestamp { unix_nanos: time::OffsetDateTime::now_utc().unix_timestamp_nanos() }
}

/// The RFC 3339 text of an instant: `OffsetDateTime::from_unix_timestamp_nanos`,
/// then `OffsetDateTime::format` with `well_known::Rfc3339`. `None` where
/// either refuses the instant.
#[verifier::external_body]
pub(crate) fn format_instant(instant: Timestamp) -> (text: Option<String>)
    ensures
        match text {
            Some(s) => rfc3339_text(instant.unix_nanos as int) == Some(s@),
            None => rfc3339_text(instant.unix_nanos as int) is None,
        },
{
    match time::OffsetDateTime::from_unix_timestamp_nanos(instant.unix_nanos) {
        Ok(t) => t.format(&time::format_description::well_known::Rfc3339).ok(),
        Err(_) => None,
    }
}

/// The instant of an RFC 3339 text: `OffsetDateTime::parse` with
/// `well_known::Rfc3339`, then `OffsetDateTime::unix_timestamp_nanos`.
/// `None` where the text is refused.
#[verifier::external_body]
pub(crate) fn parse_instant(text: &str) -> (instant: Option<Timestamp>)
    ensures
        match instant {
            Some(t) => rfc3339_instant(text@) == Some(t.unix_nanos as int),
            None => rfc3339_instant(text@) is None,
        },
{
    match time::OffsetDateTime::parse(text, &time::format_description::well_known::Rfc3339) {
        Ok(t) => Some(Timestamp { unix_nanos: t.unix_timestamp_nanos() }),
        Err(_) => None,
    }
}

/// Whether an instant survives being written as text: it has an RFC 3339
/// text, and that text read back gives the same instant.
pub fn instant_survives(instant: Timestamp) -> (b: bool)
    ensures
        b == survives_text(instant.unix_nanos as int),
{
    match format_instant(instant) {
        Some(text) => match parse_instant(text.as_str()) {
            Some(back) => back.unix_nanos == instant.unix_nanos,
            None => false,
        },
        None => false,
    }
}

} // verus!
