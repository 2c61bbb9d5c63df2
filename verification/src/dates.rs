//! Dates of commits, in UTC.

use vstd::prelude::*;

verus! {

/// The first second of the earliest year that a date can have, -262143.
pub const FIRST_SECOND: i64 = -8_334_601_228_800;

/// The last second of the latest year that a date can have, 262142.
pub const LAST_SECOND: i64 = 8_210_266_876_799;

/// Whether a time, in seconds since the Unix epoch, has a date.
pub open spec fn has_date(seconds: i64) -> bool {
    FIRST_SECOND <= seconds <= LAST_SECOND
}

/// What `chrono` writes for a time, in seconds since the Unix epoch, by a
/// pattern of its `strftime` language.
pub uninterp spec fn utc_text(seconds: i64, pattern: Seq<char>) -> Seq<char>;

/// `chrono::DateTime::from_timestamp` followed by `format` and `to_string`. A
/// time has a date exactly when its year lies within the years of `chrono`, and
/// the text of the date depends on the time and the pattern alone. Only patterns
/// that every date can be written by are allowed: `to_string` panics on others.
#[verifier::external_body]
fn chrono_text(seconds: i64, pattern: &str) -> (r: Option<String>)
    requires
        pattern@ == "%Y-%m-%d %H:%M:%S"@ || pattern@ == "%Y-%m-%d %H:%M"@,
    ensures
        r is Some <==> has_date(seconds),
        r matches Some(text) ==> text@ == utc_text(seconds, pattern@),
{
    chrono::DateTime::from_timestamp(seconds, 0).map(|date| date.format(pattern).to_string())
}

/// The date and the time of day to the second; nothing for a time without a date.
pub fn date_to_the_second(seconds: i64) -> (r: Option<String>)
    ensures
        r is Some <==> has_date(seconds),
        r matches Some(text) ==> text@ == utc_text(seconds, "%Y-%m-%d %H:%M:%S"@),
{
    chrono_text(seconds, "%Y-%m-%d %H:%M:%S")
}

/// The date and the time of day to the minute; nothing for a time without a date.
pub fn date_to_the_minute(seconds: i64) -> (r: Option<String>)
    ensures
        r is Some <==> has_date(seconds),
        r matches Some(text) ==> text@ == utc_text(seconds, "%Y-%m-%d %H:%M"@),
{
    chrono_text(seconds, "%Y-%m-%d %H:%M")
}

/// The years with dates go from -262143 to 262142.
pub proof fn law_times_with_a_date(seconds: i64)
    ensures
        has_date(seconds) <==> -8_334_601_228_800 <= seconds <= 8_210_266_876_799,
{
}

} // verus!
