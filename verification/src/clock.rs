//! The wall clock.

use vstd::prelude::*;

verus! {

/// `chrono`'s `DateTime::<Utc>::from` on the system time, followed by
/// `DateTime::timestamp_millis`: the current time in milliseconds since the
/// Unix epoch, negative where the clock reads before the epoch. It differs
/// from call to call, so nothing is claimed of the result.
#[verifier::external_body]
pub(crate) fn wall_clock_millis() -> (now: i64) {
    chrono::DateTime::<chrono::Utc>::from(std::time::SystemTime::now()).timestamp_millis()
}

/// The current time in milliseconds since the Unix epoch, with a clock that
/// reads before the epoch taken as the epoch.
pub fn now_millis() -> (now: u64)
    ensures
        exists|raw: i64| now == #[trigger] reading_millis(raw),
{
    let raw: i64 = wall_clock_millis();
    millis_of_reading(raw)
}

/// The time that a reading of the clock stands for: the reading itself, and
/// the epoch for a reading before the epoch.
pub open spec fn reading_millis(raw: i64) -> u64 {
    if raw < 0 {
        0
    } else {
        raw as u64
    }
}

/// Turns a reading of the clock, in milliseconds since the Unix epoch, into
/// the time that the library works with.
pub fn millis_of_reading(raw: i64) -> (millis: u64)
    ensures
        millis == reading_millis(raw),
{
    if raw < 0 {
        0
    } else {
        raw as u64
    }
}

} // verus!
