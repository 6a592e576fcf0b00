//! The start of the current day, from which "today's" activity is counted.
use chrono::Timelike;
use vstd::prelude::*;

verus! {

/// The current time from chrono (`Local::now`): its Unix timestamp and the
/// seconds since local midnight (`timestamp`, `time().num_seconds_from_midnight`).
/// The claim: the seconds are below a day, and the timestamp lies within
/// chrono's range of dates (years below 262143 in magnitude, so well inside
/// 2^44 seconds). Nothing is claimed about which instant it is. Not
/// covered by the claim: chrono's `Local::now` panics when the system clock
/// reads before 1970 or when the local time-zone data cannot be read; no
/// precondition can rule that out, so those runs never reach the claim.
#[verifier::external_body]
fn local_now() -> (r: (i64, u32))
    ensures
        r.1 < 86400,
        -17592186044416 < r.0 < 17592186044416,
{
    let now = chrono::Local::now();
    (now.timestamp(), now.time().num_seconds_from_midnight())
}

/// The timestamp of the last local midnight at the instant `now_ts`, when
/// `secs_from_midnight` seconds have passed since it.
pub fn midnight_from(now_ts: i64, secs_from_midnight: u32) -> (r: i64)
    requires
        now_ts - secs_from_midnight >= i64::MIN,
    ensures
        r == now_ts - secs_from_midnight,
{
    now_ts - secs_from_midnight as i64
}

/// The timestamp of the last local midnight; events at or after it count
/// as today's.
pub fn today_midnight_ts() -> (r: i64)
    ensures
        -17592186044416 - 86400 < r < 17592186044416,
{
    let (now_ts, secs) = local_now();
    midnight_from(now_ts, secs)
}

} // verus!
