//! The wall clock of the ritual: Discord timestamps are UTC, the ritual
//! runs on US Eastern time, taken as UTC minus four hours.
use vstd::prelude::*;
use chrono::{DateTime, Timelike};

verus! {

/// How far the ritual's clock runs behind UTC, in seconds: four hours.
pub const EASTERN_OFFSET_SECS: i64 = 14400;

/// Seconds in a day.
pub open spec fn day_seconds() -> int {
    86400
}

/// The first second chrono can hold: midnight at the start of its first
/// year (-262143), as seconds since the Unix epoch.
pub open spec fn min_utc_secs() -> int {
    -8_334_601_228_800
}

/// The last second chrono can hold: the end of its last year (262142),
/// as seconds since the Unix epoch.
pub open spec fn max_utc_secs() -> int {
    8_210_266_876_799
}

/// Timestamps whose date chrono can hold.
pub open spec fn in_utc_range(secs: int) -> bool {
    min_utc_secs() <= secs <= max_utc_secs()
}

/// Timestamps whose date chrono can hold also four hours earlier.
pub open spec fn in_clock_range(unix_secs: int) -> bool {
    min_utc_secs() + EASTERN_OFFSET_SECS <= unix_secs <= max_utc_secs()
}

/// Whether `unix_secs` lies in the range that the clock can read.
pub fn clock_can_read(unix_secs: i64) -> (r: bool)
    ensures
        r == in_clock_range(unix_secs as int),
{
    -8_334_601_228_800 + EASTERN_OFFSET_SECS <= unix_secs && unix_secs <= 8_210_266_876_799
}

/// Seconds since midnight (UTC) of a timestamp.
pub open spec fn utc_second_of_day(secs: int) -> int {
    secs % day_seconds()
}

/// Seconds since midnight, on the clock four hours behind UTC.
pub open spec fn eastern_second_of_day(unix_secs: int) -> int {
    utc_second_of_day(unix_secs - EASTERN_OFFSET_SECS)
}

/// The hour on the clock four hours behind UTC.
pub open spec fn eastern_hour(unix_secs: int) -> int {
    eastern_second_of_day(unix_secs) / 3600
}

/// The minute on the clock four hours behind UTC.
pub open spec fn eastern_minute(unix_secs: int) -> int {
    (eastern_second_of_day(unix_secs) % 3600) / 60
}

/// Hour and minute (UTC) of a timestamp. Calls chrono:
/// `DateTime::from_timestamp(secs, 0)`, then `hour()` and `minute()` of
/// its `naive_utc()`. Claimed: chrono counts days of 86,400 seconds from
/// the epoch (no leap second in a timestamp with no nanoseconds) and takes
/// the time of day as the Euclidean remainder of `secs` by 86,400, split
/// into hours and minutes. The range in `requires` is exactly the one in
/// which `from_timestamp` returns a date, so the `unwrap` cannot fail.
#[verifier::external_body]
fn utc_clock(secs: i64) -> (r: (u32, u32))
    requires
        in_utc_range(secs as int),
    ensures
        r.0 as int == utc_second_of_day(secs as int) / 3600,
        r.1 as int == (utc_second_of_day(secs as int) % 3600) / 60,
{
    let t = DateTime::from_timestamp(secs, 0).unwrap().naive_utc();
    (t.hour(), t.minute())
}

/// Hour and minute of a UTC timestamp on the clock four hours behind UTC.
pub fn eastern_clock(unix_secs: i64) -> (r: (u32, u32))
    requires
        in_clock_range(unix_secs as int),
    ensures
        r.0 as int == eastern_hour(unix_secs as int),
        r.1 as int == eastern_minute(unix_secs as int),
{
    utc_clock(unix_secs - EASTERN_OFFSET_SECS)
}

/// The clock reads `h:m` exactly at the second `sec` of minute `m` of hour
/// `h`, four hours after UTC midnight, on any day `k` before or after the
/// epoch: it is UTC shifted back by four hours, with days of 24 hours.
pub proof fn lemma_eastern_clock_reading(k: int, h: int, m: int, sec: int)
    requires
        0 <= h < 24,
        0 <= m < 60,
        0 <= sec < 60,
    ensures
        eastern_hour(4 * 3600 + 86400 * k + 3600 * h + 60 * m + sec) == h,
        eastern_minute(4 * 3600 + 86400 * k + 3600 * h + 60 * m + sec) == m,
{
    let r = 3600 * h + 60 * m + sec;
    let t = 4 * 3600 + 86400 * k + r;
    assert(0 <= r < 86400);
    assert((86400 * k + r) % 86400 == r) by (nonlinear_arith)
        requires
            0 <= r < 86400,
    ;
    assert(t - EASTERN_OFFSET_SECS == 86400 * k + r);
    assert(eastern_second_of_day(t) == r);
    assert(r / 3600 == h) by (nonlinear_arith)
        requires
            r == 3600 * h + 60 * m + sec,
            0 <= m < 60,
            0 <= sec < 60,
    ;
    assert((r % 3600) / 60 == m) by (nonlinear_arith)
        requires
            r == 3600 * h + 60 * m + sec,
            0 <= m < 60,
            0 <= sec < 60,
    ;
}

} // verus!
