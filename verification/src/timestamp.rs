//! Time stamps written by `chrono`.
use vstd::prelude::*;

verus! {

/// The text that `chrono` gives for the UTC time `secs` seconds after the
/// Unix epoch in the format `%Y-%m-%d %H:%M:%S`; `None` where
/// `DateTime::from_timestamp` has no such time.
pub uninterp spec fn utc_text(secs: i64) -> Option<Seq<char>>;

/// The last second of the year 9999, in seconds after the Unix epoch.
pub const LAST_SECOND_OF_9999: i64 = 253402300799;

/// Calls `chrono::DateTime::from_timestamp(secs, 0)` and formats the time
/// with `DateTime::format("%Y-%m-%d %H:%M:%S")`. The contract names the text.
/// The source of `from_timestamp` refuses only days outside the range of
/// `NaiveDate` (years beyond about 262000 either way), so every time from
/// the epoch to the end of the year 9999 is accepted.
#[verifier::external_body]
pub(crate) fn format_utc(secs: i64) -> (t: Option<String>)
    ensures
        t.deep_view() == utc_text(secs),
        0 <= secs <= LAST_SECOND_OF_9999 ==> t is Some,
{
    match chrono::DateTime::from_timestamp(secs, 0) {
        Some(time) => Some(time.format("%Y-%m-%d %H:%M:%S").to_string()),
        None => None,
    }
}

} // verus!
