use vstd::prelude::*;

verus! {

/// Length of a day in seconds.
pub const SECONDS_PER_DAY: u64 = 86400;

/// The latest instant at which a score can be written: its expiry, one day
/// later at most, must still fit in a `u64`.
pub const LATEST_INSTANT: u64 = 18446744073709465215;

/// The first midnight strictly after the instant `t`, where instants count
/// wall-clock seconds of local time since the epoch.
pub open spec fn next_midnight_spec(t: int) -> int {
    (t / SECONDS_PER_DAY as int + 1) * SECONDS_PER_DAY as int
}

/// Computes the expiry instant of a leaderboard written at `now`.
pub fn next_midnight(now: u64) -> (r: u64)
    requires
        now <= LATEST_INSTANT,
    ensures
        r == next_midnight_spec(now as int),
        now < r <= now + SECONDS_PER_DAY,
        r % SECONDS_PER_DAY == 0,
{
    let day: u64 = now / SECONDS_PER_DAY;
    proof {
        let d = day as int;
        let n = now as int;
        assert(d * 86400 <= n < d * 86400 + 86400) by (nonlinear_arith)
            requires
                d == n / 86400,
                n >= 0,
        ;
        assert(((d + 1) * 86400) % 86400 == 0) by (nonlinear_arith);
    }
    (day + 1) * SECONDS_PER_DAY
}

} // verus!
