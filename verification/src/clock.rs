//! Timestamps of the current time, as RFC 3339 text in UTC.

use vstd::prelude::*;
use crate::ui::string_opt;

verus! {

#[verifier::external_type_specification]
#[verifier::external_body]
pub struct ExSystemTime(std::time::SystemTime);

/// Reads the system clock with `std::time::SystemTime::now`.  Nothing is
/// stated of the reading: it depends on the clock.
#[verifier::external_body]
fn clock_now() -> (now: std::time::SystemTime) {
    std::time::SystemTime::now()
}

/// Measures a time from the Unix epoch with `SystemTime::duration_since`;
/// none when the time lies before the epoch.  Which duration comes back
/// depends on the time, which is opaque here, so nothing more is stated.
#[verifier::external_body]
fn since_epoch(t: &std::time::SystemTime) -> (d: Option<std::time::Duration>) {
    match t.duration_since(std::time::UNIX_EPOCH) {
        Ok(d) => Some(d),
        Err(_) => None,
    }
}

/// The whole seconds of a duration, `Duration::as_secs`.  The duration is
/// opaque here, so nothing is stated of them.
#[verifier::external_body]
fn whole_seconds(d: &std::time::Duration) -> (secs: u64) {
    d.as_secs()
}

/// The nanoseconds of a duration beyond its whole seconds,
/// `Duration::subsec_nanos`, which std documents as less than a billion.
#[verifier::external_body]
fn extra_nanos(d: &std::time::Duration) -> (nanos: u32)
    ensures
        nanos < 1_000_000_000,
{
    d.subsec_nanos()
}

/// The system clock read as whole seconds and the nanoseconds beyond them
/// since the Unix epoch; none when it reads before the epoch.
fn time_since_epoch() -> (t: Option<(u64, u32)>)
    ensures
        t matches Some(st) ==> st.1 < 1_000_000_000,
{
    let now = clock_now();
    match since_epoch(&now) {
        Some(d) => Some((whole_seconds(&d), extra_nanos(&d))),
        None => None,
    }
}

/// The RFC 3339 text, in UTC, of the instant `secs` seconds and `nanos`
/// nanoseconds after the Unix epoch, as `chrono` renders it; none when
/// `chrono` refuses the instant.
pub uninterp spec fn utc_rfc3339(secs: i64, nanos: u32) -> Option<Seq<char>>;

/// Calls `chrono::DateTime::from_timestamp`, and turns the instant it gives
/// into text with `DateTime::to_rfc3339`; the result is named by
/// `utc_rfc3339`.
#[verifier::external_body]
fn rfc3339_at(secs: i64, nanos: u32) -> (text: Option<String>)
    ensures
        string_opt(text) == utc_rfc3339(secs, nanos),
{
    match chrono::DateTime::from_timestamp(secs, nanos) {
        Some(t) => Some(t.to_rfc3339()),
        None => None,
    }
}

/// A text that renders some instant.
pub open spec fn is_rfc3339_instant(ts: Seq<char>) -> bool {
    exists|secs: i64, nanos: u32| #[trigger] utc_rfc3339(secs, nanos) == Some(ts)
}

/// The RFC 3339 text of a clock reading (whole seconds and nanoseconds
/// since the Unix epoch): none without a reading, or when the seconds do not
/// fit an `i64`; otherwise what `chrono` renders for that instant.
pub fn timestamp_from_reading(reading: Option<(u64, u32)>) -> (ts: Option<String>)
    ensures
        string_opt(ts) == match reading {
            Some((secs, nanos)) => if secs <= 0x7fff_ffff_ffff_ffffu64 {
                utc_rfc3339(secs as i64, nanos)
            } else {
                None
            },
            None => None,
        },
{
    match reading {
        None => None,
        Some((secs, nanos)) => {
            if secs > 0x7fff_ffff_ffff_ffffu64 {
                None
            } else {
                rfc3339_at(secs as i64, nanos)
            }
        },
    }
}

/// The current time as RFC 3339 text in UTC; none when the clock reads
/// before the Unix epoch or beyond what the text can render.
pub fn current_timestamp() -> (ts: Option<String>)
    ensures
        ts matches Some(t) ==> is_rfc3339_instant(t@),
{
    let reading = time_since_epoch();
    let ts = timestamp_from_reading(reading);
    proof {
        if let Some((secs, nanos)) = reading {
            if secs <= 0x7fff_ffff_ffff_ffffu64 {
                assert(ts matches Some(t) ==> utc_rfc3339(secs as i64, nanos) == Some(t@));
            }
        }
    }
    ts
}

} // verus!
