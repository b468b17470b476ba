//! The local wall clock, as the instants that the leaderboard works with:
//! seconds since the epoch, read off local time as if it were UTC, so that
//! multiples of a day fall on local midnight.
use vstd::prelude::*;
use crate::expiry::LATEST_INSTANT;

verus! {

/// Relies on chrono's `Local::now`, `DateTime::naive_local`,
/// `NaiveDateTime::and_utc` and `DateTime::timestamp`, for the local
/// wall-clock time in whole seconds. It depends on the moment and on the
/// machine's time zone, so nothing is promised of the value. `naive_local`
/// panics only for a local time outside chrono's range of dates, some
/// 262,000 years away.
#[verifier::external_body]
fn local_wall_clock() -> (r: i64) {
    chrono::Local::now().naive_local().and_utc().timestamp()
}

/// A clock reading as a leaderboard instant, where it is one: readings
/// before the epoch, or too late for an expiry to be computed, are not.
pub fn instant_from_reading(t: i64) -> (r: Option<u64>)
    ensures
        r == (if 0 <= t <= LATEST_INSTANT { Some(t as u64) } else { None::<u64> }),
{
    if t < 0 {
        None
    } else {
        let u = t as u64;
        if u <= LATEST_INSTANT {
            Some(u)
        } else {
            None
        }
    }
}

/// The current instant on the local wall clock.
pub fn now_instant() -> (r: Option<u64>)
    ensures
        r matches Some(t) ==> t <= LATEST_INSTANT,
{
    instant_from_reading(local_wall_clock())
}

} // verus!
