//! The time source. Store operations take "now" as a plain Unix-seconds
//! argument, so the choice of clock stays a configuration point; these
//! helpers provide the process clock and expiry-timestamp conversions.
use vstd::prelude::*;

verus! {

/// Whether chrono's date types can represent this count of Unix seconds.
/// Named rather than spelled out: the exact range is internal to chrono.
pub uninterp spec fn chrono_representable(secs: i64) -> bool;

/// Relies on chrono::DateTime::<Utc>::from_timestamp, which returns `Some`
/// exactly on the seconds counts chrono's date types can represent (`None`
/// on an out-of-range number of seconds).
#[verifier::external_body]
fn timestamp_in_chrono_range(secs: i64) -> (r: bool)
    ensures
        r == chrono_representable(secs),
{
    chrono::DateTime::<chrono::Utc>::from_timestamp(secs, 0).is_some()
}

/// Relies on chrono::Utc::now for the wall-clock instant, reported as Unix
/// seconds. Nothing is promised of the value: it depends on the clock.
#[verifier::external_body]
pub fn current_time() -> i64 {
    chrono::Utc::now().timestamp()
}

/// The wall-clock instant as Unix seconds, from the same source as
/// [`current_time`].
pub fn now() -> i64 {
    current_time()
}

/// Converts a record's expiry timestamp for a backend whose date type cannot
/// hold every instant: an unrepresentable expiry falls back to the given
/// current time, which makes the session effectively expired.
pub fn convert_expiry_date(expiry_secs: i64, now_secs: i64) -> (r: i64)
    ensures
        r == if chrono_representable(expiry_secs) {
            expiry_secs
        } else {
            now_secs
        },
{
    if timestamp_in_chrono_range(expiry_secs) {
        expiry_secs
    } else {
        now_secs
    }
}

/// A record's expiry timestamp where an unrepresentable instant must surface
/// as an error instead of falling back to the current time.
pub fn checked_expiry_date(expiry_secs: i64) -> (r: Option<i64>)
    ensures
        r == if chrono_representable(expiry_secs) {
            Some(expiry_secs)
        } else {
            None::<i64>
        },
{
    if timestamp_in_chrono_range(expiry_secs) {
        Some(expiry_secs)
    } else {
        None
    }
}

/// The remaining lifetime of a record in whole seconds at `now_secs`: zero
/// when the expiry is not strictly in the future.
pub fn expiry_date_to_duration(expiry_secs: i64, now_secs: i64) -> (r: u64)
    ensures
        r == if expiry_secs > now_secs {
            (expiry_secs - now_secs) as u64
        } else {
            0u64
        },
{
    if expiry_secs > now_secs {
        ((expiry_secs as i128) - (now_secs as i128)) as u64
    } else {
        0
    }
}

} // verus!
