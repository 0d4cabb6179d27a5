//! Texts of moments in universal time.

use vstd::prelude::*;

verus! {

/// The text of a moment, given in seconds from the epoch, under a pattern of `chrono`; none where
/// the moment lies outside the calendar of `chrono`.
pub uninterp spec fn utc_text(secs: int, pattern: Seq<char>) -> Option<Seq<char>>;

/// The patterns in use, each of which `chrono` can write for every date.
pub open spec fn known_pattern(pattern: Seq<char>) -> bool {
    ||| pattern == "%Y-%m-%d"@
    ||| pattern == "%m-%d %H:%M"@
    ||| pattern == "%Y-%m-%d %H:%M:%S UTC"@
}

/// `chrono::DateTime::<Utc>::from_timestamp(secs, 0)`, written with `format` under `pattern`.
/// The result depends on both arguments alone, and there is one for every moment from the epoch
/// to the end of the year 9999. What the text is, is left to `chrono`.
#[verifier::external_body]
fn write_utc(secs: i64, pattern: &str) -> (r: Option<String>)
    requires
        known_pattern(pattern@),
    ensures
        match r {
            Some(s) => utc_text(secs as int, pattern@) == Some(s@),
            None => utc_text(secs as int, pattern@) is None,
        },
        0 <= secs < 253_402_300_800 ==> r is Some,
{
    chrono::DateTime::<chrono::Utc>::from_timestamp(secs, 0).map(|d| d.format(pattern).to_string())
}

/// The text, or another one where there is none.
pub open spec fn or_else_text(text: Option<Seq<char>>, other: Seq<char>) -> Seq<char> {
    match text {
        Some(s) => s,
        None => other,
    }
}

fn text_or(text: Option<String>, other: &str) -> (r: String)
    ensures
        r@ == (match text {
            Some(s) => s@,
            None => other@,
        }),
{
    match text {
        Some(s) => s,
        None => crate::decimal::text(other),
    }
}

/// The day of a moment, as in "2025-01-31"; empty outside the calendar.
pub fn day_text(secs: i64) -> (r: String)
    ensures
        r@ == or_else_text(utc_text(secs as int, "%Y-%m-%d"@), ""@),
{
    text_or(write_utc(secs, "%Y-%m-%d"), "")
}

/// A moment within a year, as in "01-31 16:00"; a question mark outside the calendar.
pub fn minute_text(secs: i64) -> (r: String)
    ensures
        r@ == or_else_text(utc_text(secs as int, "%m-%d %H:%M"@), "?"@),
{
    text_or(write_utc(secs, "%m-%d %H:%M"), "?")
}

/// A moment in full, as in "2025-01-31 16:00:00 UTC"; a question mark outside the calendar.
pub fn moment_text(secs: i64) -> (r: String)
    ensures
        r@ == or_else_text(utc_text(secs as int, "%Y-%m-%d %H:%M:%S UTC"@), "?"@),
{
    text_or(write_utc(secs, "%Y-%m-%d %H:%M:%S UTC"), "?")
}

} // verus!
