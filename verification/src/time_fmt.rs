//! Times in JSON: RFC 3339 text (such as `2026-05-29T10:20:30Z`) in place of
//! a structure of seconds and nanoseconds.

use vstd::prelude::*;

use time::format_description::well_known::Rfc3339;
use time::OffsetDateTime;

verus! {

/// Nanoseconds since the Unix epoch of -9999-01-01T00:00:00Z, the earliest
/// time the `time` crate represents.
pub open spec fn earliest_time() -> int {
    -377705203200int * 1000000000int
}

/// Nanoseconds since the Unix epoch of 0000-01-01T00:00:00Z.
pub open spec fn year_zero() -> int {
    -62167219200int * 1000000000int
}

/// Nanoseconds since the Unix epoch of 10000-01-01T00:00:00Z, just past the
/// latest time the `time` crate represents.
pub open spec fn year_ten_thousand() -> int {
    253402300800int * 1000000000int
}

/// The RFC 3339 text of a UTC time given in nanoseconds since the epoch.
pub uninterp spec fn rfc3339_text(t: i128) -> Seq<char>;

/// Calls `OffsetDateTime::from_unix_timestamp_nanos`, which fails outside
/// the years -9999 to 9999, and formats the time with
/// `OffsetDateTime::format(&Rfc3339)`, which fails for years outside 0 to
/// 9999. Succeeds exactly for times from 0000-01-01 up to, not including,
/// 10000-01-01.
#[verifier::external_body]
fn format_rfc3339(t: i128) -> (r: Option<String>)
    ensures
        r is Some <==> year_zero() <= t < year_ten_thousand(),
        r matches Some(s) ==> s@ == rfc3339_text(t),
{
    match OffsetDateTime::from_unix_timestamp_nanos(t) {
        Ok(dt) => dt.format(&Rfc3339).ok(),
        Err(_) => None,
    }
}

/// The time could not be written as RFC 3339 (its year is below 0).
#[derive(Debug, Clone, Copy, PartialEq, Eq, Structural)]
pub enum TimeFormatError {
    YearOutOfRange,
}

/// The JSON text of an optional time: `None` stays null; a time becomes
/// its RFC 3339 text. Times the `time` crate cannot represent are refused
/// by the precondition, as the conversion from `SystemTime` panics on them.
pub fn serialize_opt(value: Option<i128>) -> (r: Result<Option<String>, TimeFormatError>)
    requires
        value matches Some(t) ==> earliest_time() <= t < year_ten_thousand(),
    ensures
        match value {
            None => r matches Ok(None),
            Some(t) => if year_zero() <= t {
                r matches Ok(Some(s)) && s@ == rfc3339_text(t)
            } else {
                r == Err::<Option<String>, TimeFormatError>(TimeFormatError::YearOutOfRange)
            },
        },
{
    match value {
        None => Ok(None),
        Some(t) => match format_rfc3339(t) {
            Some(s) => Ok(Some(s)),
            None => Err(TimeFormatError::YearOutOfRange),
        },
    }
}

} // verus!
