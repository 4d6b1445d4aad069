//! Calendar dates as Unix time.

use vstd::prelude::*;

verus! {

pub open spec fn is_leap(y: int) -> bool {
    y % 4 == 0 && (y % 100 != 0 || y % 400 == 0)
}

/// Leap years before year `y` of the common era.
pub open spec fn leaps_before(y: int) -> int {
    (y - 1) / 4 - (y - 1) / 100 + (y - 1) / 400
}

/// Days from 1970-01-01 to the first day of year `y`.
pub open spec fn year_start(y: int) -> int {
    365 * (y - 1970) + leaps_before(y) - leaps_before(1970)
}

/// Days of a common year before the first of month `m`. Month 0 is the December
/// before the year, and months from 13 on count on behind it.
pub open spec fn month_start(m: int) -> int {
    seq![-31int, 0, 31, 59, 90, 120, 151, 181, 212, 243, 273, 304, 334, 365, 396, 426][m]
}

/// Days from 1970-01-01 to a date; a day past the end of its month counts on
/// into the next.
pub open spec fn date_days(y: int, m: int, d: int) -> int {
    year_start(y) + month_start(m) + (if m > 2 && is_leap(y) {
        1int
    } else {
        0int
    }) + d - 1
}

/// Milliseconds from the Unix epoch to a moment of a date.
pub open spec fn moment_ms(y: int, m: int, d: int, seconds: int, ms: int) -> int {
    (date_days(y, m, d) * 86400 + seconds) * 1000 + ms
}

/// The year that starts is one day longer than the last where that was a leap
/// year, and each date's day follows the one before it.
pub proof fn years_follow_each_other(y: int)
    ensures
        year_start(y + 1) == year_start(y) + (if is_leap(y) {
            366int
        } else {
            365int
        }),
        year_start(1970) == 0,
{
}

/// Days from 1970-01-01 to a date.
pub fn days_from_civil(y: i64, m: i64, d: i64) -> (r: i64)
    requires
        1900 <= y <= 3000,
        0 <= m <= 15,
        0 <= d <= 366,
    ensures
        r == date_days(y as int, m as int, d as int),
        -40_000 <= r <= 400_000,
{
    let before: i64 = (y - 1) / 4 - (y - 1) / 100 + (y - 1) / 400 - 477;
    let start: i64 = match m {
        0 => -31,
        1 => 0,
        2 => 31,
        3 => 59,
        4 => 90,
        5 => 120,
        6 => 151,
        7 => 181,
        8 => 212,
        9 => 243,
        10 => 273,
        11 => 304,
        12 => 334,
        13 => 365,
        14 => 396,
        _ => 426,
    };
    assert(start == month_start(m as int));
    assert(leaps_before(1970) == 477);
    let leap: bool = y % 4 == 0 && (y % 100 != 0 || y % 400 == 0);
    let extra: i64 = if m > 2 && leap {
        1
    } else {
        0
    };
    365 * (y - 1970) + before + start + extra + d - 1
}

/// Milliseconds from the Unix epoch to a moment of a date.
pub fn civil_ms(y: i64, m: i64, d: i64, seconds: i64, ms: i64) -> (r: i64)
    requires
        1900 <= y <= 3000,
        0 <= m <= 15,
        0 <= d <= 366,
        0 <= seconds <= 200_000,
        0 <= ms <= 10_000,
    ensures
        r == moment_ms(y as int, m as int, d as int, seconds as int, ms as int),
        -4_000_000_000_000 <= r <= 40_000_000_000_000,
{
    (days_from_civil(y, m, d) * 86400 + seconds) * 1000 + ms
}

/// The first of each month comes as many days after the first of the month
/// before as that has days, and a year ends with December's thirty-one.
pub proof fn months_have_their_days(y: int)
    ensures
        date_days(y, 2, 1) - date_days(y, 1, 1) == 31,
        date_days(y, 3, 1) - date_days(y, 2, 1) == if y % 4 == 0 && (y % 100 != 0 || y % 400
            == 0) {
            29int
        } else {
            28int
        },
        date_days(y, 4, 1) - date_days(y, 3, 1) == 31,
        date_days(y, 5, 1) - date_days(y, 4, 1) == 30,
        date_days(y, 6, 1) - date_days(y, 5, 1) == 31,
        date_days(y, 7, 1) - date_days(y, 6, 1) == 30,
        date_days(y, 8, 1) - date_days(y, 7, 1) == 31,
        date_days(y, 9, 1) - date_days(y, 8, 1) == 31,
        date_days(y, 10, 1) - date_days(y, 9, 1) == 30,
        date_days(y, 11, 1) - date_days(y, 10, 1) == 31,
        date_days(y, 12, 1) - date_days(y, 11, 1) == 30,
        date_days(y + 1, 1, 1) - date_days(y, 12, 1) == 31,
        date_days(y, 1, 1) - date_days(y, 0, 1) == 31,
        date_days(y, 13, 1) == date_days(y + 1, 1, 1),
        date_days(y, 14, 1) == date_days(y + 1, 2, 1),
        date_days(1970, 1, 1) == 0,
{
    years_follow_each_other(y);
    assert(month_start(0) == -31 && month_start(1) == 0 && month_start(2) == 31);
    assert(month_start(3) == 59 && month_start(4) == 90 && month_start(5) == 120);
    assert(month_start(6) == 151 && month_start(7) == 181 && month_start(8) == 212);
    assert(month_start(9) == 243 && month_start(10) == 273 && month_start(11) == 304);
    assert(month_start(12) == 334 && month_start(13) == 365 && month_start(14) == 396);
}

/// Within a month each day follows the one before, and within a day each
/// second and each millisecond.
pub proof fn time_goes_on(y: int, m: int, d: int, k: int, seconds: int, ms: int, more: int)
    ensures
        date_days(y, m, d + k) == date_days(y, m, d) + k,
        moment_ms(y, m, d + k, seconds, ms) == moment_ms(y, m, d, seconds, ms) + 86_400_000 * k,
        moment_ms(y, m, d, seconds + k, ms + more) == moment_ms(y, m, d, seconds, ms) + 1000 * k
            + more,
        moment_ms(1970, 1, 1, seconds, ms) == 1000 * seconds + ms,
{
    assert(month_start(1) == 0);
}

} // verus!
