//! Wall-clock time from the real-time clock: a Unix timestamp as calendar date and
//! time of day.

use crate::math::hw::{truncate32, wrap32};
use vstd::prelude::*;

verus! {

/// Is this a leap year?
pub open spec fn is_leap(year: int) -> bool {
    year % 4 == 0 && (year % 100 != 0 || year % 400 == 0)
}

/// Days of a month.
pub open spec fn month_days(year: int, month: int) -> int {
    if month == 2 {
        if is_leap(year) {
            29
        } else {
            28
        }
    } else if month == 4 || month == 6 || month == 9 || month == 11 {
        30
    } else {
        31
    }
}

/// Days of a year before a month.
pub open spec fn days_before_month(year: int, month: int) -> int
    decreases month,
{
    if month <= 1 {
        0
    } else {
        days_before_month(year, month - 1) + month_days(year, month - 1)
    }
}

/// Leap years up to and with `year`, counted from year one.
pub open spec fn leaps_through(year: int) -> int {
    year / 4 - year / 100 + year / 400
}

/// Days from 1970-01-01 to a date.
pub open spec fn day_number(year: int, month: int, day: int) -> int {
    365 * (year - 1970) + leaps_through(year - 1) - leaps_through(1969) + days_before_month(
        year,
        month,
    ) + day - 1
}

/// A date that exists.
pub open spec fn is_date(year: int, month: int, day: int) -> bool {
    1 <= month <= 12 && 1 <= day <= month_days(year, month)
}

/// Broken-down wall-clock time.
#[derive(Clone, Copy, Debug, PartialEq, Eq, Structural)]
pub struct WallClock {
    /// Seconds since 1970-01-01 00:00:00.
    pub unix_secs: i64,
    pub year: i32,
    /// From 1.
    pub month: u8,
    /// From 1.
    pub day: u8,
    pub hour: u8,
    pub minute: u8,
    pub second: u8,
    /// Day of the week, Sunday is zero.
    pub weekday: u8,
}

/// The clock shows this timestamp: its date is the one that many days after the
/// epoch, its time the rest of the day. A year beyond the range of its field wraps.
pub open spec fn shows(c: WallClock, secs: int) -> bool {
    &&& c.unix_secs == secs
    &&& exists|year: int| #[trigger]
        is_date(year, c.month as int, c.day as int) && day_number(
            year,
            c.month as int,
            c.day as int,
        ) == secs / 86_400 && c.year == wrap32(year)
    &&& c.hour < 24 && c.minute < 60 && c.second < 60
    &&& c.hour * 3600 + c.minute * 60 + c.second == secs % 86_400
    &&& c.weekday == (secs / 86_400 + 4) % 7
}

/// Days from the first of March of a four-hundred-year era to that of one of its
/// years.
spec fn era_year_start(yoe: int) -> int {
    365 * yoe + yoe / 4 - yoe / 100
}

/// Days from the first of March to the first of a month counted from March.
spec fn march_offset(mp: int) -> int {
    (153 * mp + 2) / 5
}

/// Year of the era and day of that year, both from the first of March.
fn split_era(doe: u32) -> (r: (u32, u32))
    requires
        doe < 146_097,
    ensures
        r.0 < 400,
        doe == era_year_start(r.0 as int) + r.1,
        r.1 <= 365,
        r.1 == 365 ==> is_leap(r.0 + 1),
{
    let c: u32 = if doe >= 109_572 {
        3
    } else {
        doe / 36_524
    };
    let rc: u32 = doe - c * 36_524;
    let q: u32 = rc / 1_461;
    let rq: u32 = rc - q * 1_461;
    let y: u32 = if rq >= 1_095 {
        3
    } else {
        rq / 365
    };
    let doy: u32 = rq - y * 365;
    let yoe: u32 = c * 100 + q * 4 + y;
    assert(yoe / 4 == c * 25 + q);
    assert(yoe / 100 == c);
    if doy == 365 {
        assert(y == 3);
        assert((yoe + 1) % 4 == 0);
        assert(q < 24 || c == 3);
    }
    (yoe, doy)
}

/// Month and day from the day of a year that starts with March.
fn split_year(doy: u32) -> (r: (u32, u32))
    requires
        doy <= 365,
    ensures
        r.0 <= 11,
        doy == march_offset(r.0 as int) + r.1,
        r.1 < march_offset(r.0 + 1) - march_offset(r.0 as int),
        r.0 == 11 ==> r.1 <= 28 && (r.1 == 28 ==> doy == 365),
{
    let mp: u32 = (5 * doy + 2) / 153;
    let day: u32 = doy - (153 * mp + 2) / 5;
    assert(mp <= 11);
    (mp, day)
}

proof fn lemma_leap_step(year: int)
    ensures
        leaps_through(year) == leaps_through(year - 1) + if is_leap(year) {
            1int
        } else {
            0
        },
{
}

proof fn lemma_days_before_month(year: int)
    ensures
        days_before_month(year, 1) == 0,
        days_before_month(year, 2) == 31,
        forall|mp: int|
            0 <= mp <= 9 ==> days_before_month(year, mp + 3) == #[trigger] march_offset(mp) + 59 + (
            if is_leap(year) {
                1int
            } else {
                0
            }),
        march_offset(10) == 306,
        march_offset(11) == 337,
        march_offset(12) == 367,
        forall|mp: int|
            0 <= mp <= 9 ==> month_days(year, mp + 3) == #[trigger] march_offset(mp + 1)
                - march_offset(mp),
{
    reveal_with_fuel(days_before_month, 13);
    assert forall|mp: int| 0 <= mp <= 9 implies days_before_month(year, mp + 3)
        == #[trigger] march_offset(mp) + 59 + (if is_leap(year) {
        1int
    } else {
        0
    }) by {
        if mp == 0 {
        } else if mp == 1 {
        } else if mp == 2 {
        } else if mp == 3 {
        } else if mp == 4 {
        } else if mp == 5 {
        } else if mp == 6 {
        } else if mp == 7 {
        } else if mp == 8 {
        } else {
        }
    }
    assert forall|mp: int| 0 <= mp <= 9 implies month_days(year, mp + 3) == #[trigger] march_offset(
        mp + 1,
    ) - march_offset(mp) by {
        if mp == 0 {
        } else if mp == 1 {
        } else if mp == 2 {
        } else if mp == 3 {
        } else if mp == 4 {
        } else if mp == 5 {
        } else if mp == 6 {
        } else if mp == 7 {
        } else if mp == 8 {
        } else {
        }
    }
}

/// Whole multiples of the divisor go straight to the quotient.
proof fn lemma_shift(a: int, z: int, d: int)
    requires
        d > 0,
    ensures
        (d * a + z) / d == a + z / d,
        (d * a + z) % d == z % d,
{
    vstd::arithmetic::div_mod::lemma_fundamental_div_mod(z, d);
    assert(d * a + z == (a + z / d) * d + z % d) by (nonlinear_arith)
        requires
            z == d * (z / d) + z % d,
    ;
    vstd::arithmetic::div_mod::lemma_fundamental_div_mod_converse(
        d * a + z,
        d,
        a + z / d,
        z % d,
    );
}

/// A year counted from March, by its era, is this many days after the epoch.
proof fn lemma_march_year(era: int, yoe: int)
    requires
        0 <= yoe < 400,
    ensures
        365 * (400 * era + yoe) + leaps_through(400 * era + yoe) == 146_097 * era + era_year_start(
            yoe,
        ),
        is_leap(400 * era + (yoe + 1)) == is_leap(yoe + 1),
{
    lemma_shift(100 * era, yoe, 4);
    lemma_shift(4 * era, yoe, 100);
    lemma_shift(era, yoe, 400);
    lemma_shift(100 * era, yoe + 1, 4);
    lemma_shift(4 * era, yoe + 1, 100);
    lemma_shift(era, yoe + 1, 400);
}

/// Month and year of a month counted from March.
spec fn civil_month(mp: int) -> int {
    if mp < 10 {
        mp + 3
    } else {
        mp - 9
    }
}

spec fn civil_year(march_year: int, mp: int) -> int {
    if mp < 10 {
        march_year
    } else {
        march_year + 1
    }
}

/// A date counted from March is the date that many days after the epoch.
proof fn lemma_date(days: int, era: int, yoe: int, doy: int, mp: int, dom: int)
    requires
        0 <= yoe < 400,
        0 <= mp <= 11,
        0 <= dom,
        days + 719_468 == 146_097 * era + era_year_start(yoe) + doy,
        doy == march_offset(mp) + dom,
        dom < march_offset(mp + 1) - march_offset(mp),
        doy <= 365,
        doy == 365 ==> is_leap(yoe + 1),
        mp == 11 ==> dom <= 28 && (dom == 28 ==> doy == 365),
    ensures
        ({
            let y = civil_year(400 * era + yoe, mp);
            let m = civil_month(mp);
            is_date(y, m, dom + 1) && day_number(y, m, dom + 1) == days
        }),
{
    let y = 400 * era + yoe;
    lemma_march_year(era, yoe);
    if mp < 10 {
        lemma_days_before_month(y);
        lemma_leap_step(y);
        assert(days_before_month(y, mp + 3) == march_offset(mp) + 59 + (if is_leap(y) {
            1int
        } else {
            0
        }));
        assert(month_days(y, mp + 3) == march_offset(mp + 1) - march_offset(mp));
    } else {
        lemma_days_before_month(y + 1);
        assert(march_offset(10) == 306 && march_offset(11) == 337 && march_offset(12) == 367);
        assert(y + 1 - 1 == y);
    }
    assert(leaps_through(1969) == 477);
}

/// Floor of a timestamp by the length of a day, and the rest.
fn split_day(secs: i64) -> (r: (i64, u32))
    ensures
        r.0 == secs as int / 86_400,
        r.1 == secs as int % 86_400,
        r.1 < 86_400,
{
    let t: i128 = secs as i128 + 86_400 * 106_751_991_167_301;
    let days: i128 = t / 86_400 - 106_751_991_167_301;
    let rest: i128 = t % 86_400;
    (days as i64, rest as u32)
}

/// Year, month and day that many days after the epoch.
fn date_of(days: i64) -> (r: (i64, u8, u8))
    requires
        -200_000_000_000_000 <= days <= 200_000_000_000_000,
    ensures
        is_date(r.0 as int, r.1 as int, r.2 as int),
        day_number(r.0 as int, r.1 as int, r.2 as int) == days,
{
    let z: i64 = days + 719_468 + 146_097 * 10_000_000_000;
    let era: i64 = z / 146_097 - 10_000_000_000;
    let doe: u32 = (z % 146_097) as u32;
    assert(days + 719_468 == 146_097 * era + doe);
    let (yoe, doy) = split_era(doe);
    let (mp, dom) = split_year(doy);
    proof {
        lemma_date(days as int, era as int, yoe as int, doy as int, mp as int, dom as int);
    }
    let march_year: i64 = yoe as i64 + era * 400;
    let day: u8 = (dom + 1) as u8;
    if mp < 10 {
        (march_year, (mp + 3) as u8, day)
    } else {
        (march_year + 1, (mp - 9) as u8, day)
    }
}

impl WallClock {
    /// Decompose a Unix timestamp into the fields of the proleptic Gregorian calendar.
    pub fn from_unix(secs: i64) -> (r: Self)
        ensures
            shows(r, secs as int),
    {
        let (days, rest) = split_day(secs);
        let (year, month, day) = date_of(days);
        let hour: u8 = (rest / 3_600) as u8;
        let minute: u8 = ((rest / 60) % 60) as u8;
        let second: u8 = (rest % 60) as u8;
        let weekday: u8 = ((days + 4 + 700_000_000_000_000) % 7) as u8;
        proof {
            lemma_shift(100_000_000_000_000, days + 4, 7);
            assert(rest == 3600 * (rest / 3600) + rest % 3600);
            assert((rest / 60) % 60 == (rest % 3600) / 60);
        }
        let r = WallClock {
            unix_secs: secs,
            year: truncate32(year),
            month,
            day,
            hour,
            minute,
            second,
            weekday,
        };
        assert(is_date(year as int, r.month as int, r.day as int) && day_number(
            year as int,
            r.month as int,
            r.day as int,
        ) == secs as int / 86_400 && r.year == wrap32(year as int));
        r
    }
}

impl Default for WallClock {
    /// The epoch.
    fn default() -> (r: Self)
        ensures
            shows(r, 0),
    {
        WallClock::from_unix(0)
    }
}

proof fn lemma_month_bounds(year: int, month: int)
    requires
        1 <= month <= 12,
    ensures
        0 <= days_before_month(year, month),
        days_before_month(year, month) + month_days(year, month) <= if is_leap(year) {
            366int
        } else {
            365
        },
    decreases 12 - month,
{
    reveal_with_fuel(days_before_month, 13);
    if month == 1 {
    } else if month == 2 {
    } else if month == 3 {
    } else if month == 4 {
    } else if month == 5 {
    } else if month == 6 {
    } else if month == 7 {
    } else if month == 8 {
    } else if month == 9 {
    } else if month == 10 {
    } else if month == 11 {
    } else {
    }
}

proof fn lemma_months_grow(year: int, a: int, b: int)
    requires
        1 <= a < b <= 12,
    ensures
        days_before_month(year, a) + month_days(year, a) <= days_before_month(year, b),
    decreases b,
{
    if a + 1 < b {
        lemma_months_grow(year, a, b - 1);
    }
}

/// A year later is at least 365 days later.
proof fn lemma_years_grow(a: int, b: int)
    requires
        a < b,
    ensures
        365 * a + leaps_through(a) <= 365 * b + leaps_through(b),
    decreases b - a,
{
    lemma_leap_step(b);
    if a + 1 < b {
        lemma_years_grow(a, b - 1);
    }
}

/// Dates with the same day number are the same, so a timestamp has one date.
pub proof fn law_day_number_is_injective(y1: int, m1: int, d1: int, y2: int, m2: int, d2: int)
    requires
        is_date(y1, m1, d1),
        is_date(y2, m2, d2),
        day_number(y1, m1, d1) == day_number(y2, m2, d2),
    ensures
        y1 == y2 && m1 == m2 && d1 == d2,
{
    lemma_month_bounds(y1, m1);
    lemma_month_bounds(y2, m2);
    lemma_leap_step(y1);
    lemma_leap_step(y2);
    if y1 < y2 {
        if y1 < y2 - 1 {
            lemma_years_grow(y1, y2 - 1);
        }
        assert(false);
    }
    if y2 < y1 {
        if y2 < y1 - 1 {
            lemma_years_grow(y2, y1 - 1);
        }
        assert(false);
    }
    if m1 < m2 {
        lemma_months_grow(y1, m1, m2);
    }
    if m2 < m1 {
        lemma_months_grow(y1, m2, m1);
    }
}

/// The day after the last of a month is the first of the next.
pub proof fn law_months_follow_each_other(year: int, month: int)
    requires
        1 <= month < 12,
    ensures
        day_number(year, month + 1, 1) == day_number(year, month, month_days(year, month)) + 1,
{
}

/// The day after the last of a year is the first of the next.
pub proof fn law_years_follow_each_other(year: int)
    ensures
        day_number(year + 1, 1, 1) == day_number(year, 12, 31) + 1,
{
    lemma_leap_step(year);
    reveal_with_fuel(days_before_month, 13);
    assert(leaps_through(year + 1 - 1) == leaps_through(year));
}

/// The epoch is the first of January 1970, a Thursday.
pub proof fn law_epoch(c: WallClock)
    requires
        shows(c, 0),
    ensures
        c.year == 1970 && c.month == 1 && c.day == 1,
        c.hour == 0 && c.minute == 0 && c.second == 0,
        c.weekday == 4,
{
    let year = choose|year: int| #[trigger]
        is_date(year, c.month as int, c.day as int) && day_number(
            year,
            c.month as int,
            c.day as int,
        ) == 0 && c.year == wrap32(year);
    assert(is_date(1970, 1, 1));
    assert(day_number(1970, 1, 1) == 0);
    law_day_number_is_injective(year, c.month as int, c.day as int, 1970, 1, 1);
}

} // verus!
