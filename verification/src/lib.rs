//! A countdown service core: parsing a duration out of a raw request line and
//! rendering the per-second countdown lines that are streamed back to the
//! client, including terminal color styling near zero and a final alarm
//! payload. All logic here is pure; the surrounding binary owns the sockets,
//! the timers and the task scheduling.
use vstd::prelude::*;

pub mod display;
pub mod encoding;
pub mod protocol;
pub mod request;

verus! {

/// Remaining-seconds value at or below which a countdown line is rendered in
/// the warning color.
pub const RED_THRESHOLD: u32 = 5;

/// Total duration in whole seconds described by an `hours:minutes:seconds`
/// triple.
pub open spec fn total_seconds_spec(hours: u32, minutes: u32, seconds: u32) -> int {
    seconds + minutes * 60 + hours * 3600
}

/// Combines parsed time components into a total number of seconds, refusing
/// combinations whose total does not fit in a `u32`.
pub fn total_seconds(hours: u32, minutes: u32, seconds: u32) -> (t: Option<u32>)
    ensures
        t is Some <==> total_seconds_spec(hours, minutes, seconds) <= u32::MAX,
        t is Some ==> t->0 == total_seconds_spec(hours, minutes, seconds),
{
    let wide: u64 = (seconds as u64) + (minutes as u64) * 60 + (hours as u64) * 3600;
    if wide <= u32::MAX as u64 {
        Some(wide as u32)
    } else {
        None
    }
}

/// For every duration a clock can show — up to `99:59:59` — the total fits a
/// `u32` with room to spare, so [`total_seconds`] accepts it.
pub proof fn lemma_realistic_totals_fit(hours: u32, minutes: u32, seconds: u32)
    requires
        hours <= 99,
        minutes <= 59,
        seconds <= 59,
    ensures
        total_seconds_spec(hours, minutes, seconds) <= 359999,
{
}

} // verus!
