//! The proleptic Gregorian calendar: the leap-year rule, year and month
//! lengths in seconds, and the decomposition of an epoch-second count into a
//! civil date and time of day.

use vstd::prelude::*;

verus! {

/// Seconds in a common (non-leap) year.
pub const COMMON_YEAR_SECONDS: i64 = 365 * 24 * 3600;

/// Seconds in a leap year.
pub const LEAP_YEAR_SECONDS: i64 = 366 * 24 * 3600;

/// The Gregorian leap-year rule, for any year of the proleptic calendar
/// (astronomical numbering: year 0 exists and negative years are valid).
pub open spec fn spec_is_leap(y: int) -> bool {
    y % 4 == 0 && (y % 100 != 0 || y % 400 == 0)
}

/// Seconds spanned by year `y`.
pub open spec fn year_seconds(y: int) -> int {
    if spec_is_leap(y) {
        LEAP_YEAR_SECONDS as int
    } else {
        COMMON_YEAR_SECONDS as int
    }
}

/// Epoch-second count of the instant `y`-01-01T00:00:00 UTC: 0 for 1970,
/// negative for earlier years, positive for later ones.
pub open spec fn year_start(y: int) -> int
    decreases (if y >= 1970 { y - 1970 } else { 1970 - y }),
{
    if y == 1970 {
        0
    } else if y > 1970 {
        year_start(y - 1) + year_seconds(y - 1)
    } else {
        year_start(y + 1) - year_seconds(y)
    }
}

/// Consecutive year starts differ by exactly the length of the earlier year.
pub proof fn lemma_year_start_succ(y: int)
    ensures
        year_start(y + 1) == year_start(y) + year_seconds(y),
{
}

/// The distance of a year start from the epoch grows at least linearly with
/// the distance of the year from 1970.
pub proof fn lemma_year_start_linear(y: int)
    ensures
        y >= 1970 ==> year_start(y) >= (y - 1970) * (COMMON_YEAR_SECONDS as int),
        y <= 1970 ==> year_start(y) <= (y - 1970) * (COMMON_YEAR_SECONDS as int),
    decreases (if y >= 1970 { y - 1970 } else { 1970 - y }),
{
    let c = COMMON_YEAR_SECONDS as int;
    if y > 1970 {
        lemma_year_start_linear(y - 1);
        assert(year_start(y) == year_start(y - 1) + year_seconds(y - 1));
        assert(year_seconds(y - 1) >= c);
        assert((y - 1970) * c == (y - 1 - 1970) * c + c) by (nonlinear_arith);
    } else if y < 1970 {
        lemma_year_start_linear(y + 1);
        assert(year_start(y) == year_start(y + 1) - year_seconds(y));
        assert(year_seconds(y) >= c);
        assert((y - 1970) * c == (y + 1 - 1970) * c - c) by (nonlinear_arith);
    }
}

/// Year starts are strictly increasing.
pub proof fn lemma_year_start_mono(y1: int, y2: int)
    requires
        y1 < y2,
    ensures
        year_start(y1) + year_seconds(y1) <= year_start(y2),
    decreases y2 - y1,
{
    lemma_year_start_succ(y1);
    if y1 + 1 < y2 {
        lemma_year_start_mono(y1 + 1, y2);
    }
}

/// Whether `year` is a leap year.
pub fn is_leap(year: i64) -> (r: bool)
    ensures
        r == spec_is_leap(year as int),
{
    if year % 4 != 0 {
        false
    } else if year % 100 != 0 {
        true
    } else if year % 400 != 0 {
        false
    } else {
        true
    }
}

/// Number of seconds that `year` spans.
pub fn seconds_of_year(year: i64) -> (r: i64)
    ensures
        r as int == year_seconds(year as int),
{
    if is_leap(year) {
        LEAP_YEAR_SECONDS
    } else {
        COMMON_YEAR_SECONDS
    }
}

/// Days in month `m` (1 through 12) of a year whose leap status is `leap`.
pub open spec fn month_days(leap: bool, m: int) -> int {
    if m == 2 {
        if leap {
            29
        } else {
            28
        }
    } else if m == 4 || m == 6 || m == 9 || m == 11 {
        30
    } else {
        31
    }
}

/// Days elapsed in the year before month `m` begins (0 for January); for
/// `m == 13` the whole year's day count.
pub open spec fn days_before_month(leap: bool, m: int) -> int {
    let shift: int = if leap { 1 } else { 0 };
    if m <= 1 {
        0
    } else if m == 2 {
        31
    } else if m == 3 {
        59 + shift
    } else if m == 4 {
        90 + shift
    } else if m == 5 {
        120 + shift
    } else if m == 6 {
        151 + shift
    } else if m == 7 {
        181 + shift
    } else if m == 8 {
        212 + shift
    } else if m == 9 {
        243 + shift
    } else if m == 10 {
        273 + shift
    } else if m == 11 {
        304 + shift
    } else if m == 12 {
        334 + shift
    } else {
        365 + shift
    }
}

/// The cumulative day table agrees with the per-month lengths, and a full
/// year's days account for exactly the year's seconds.
pub proof fn lemma_month_table(leap: bool, m: int)
    requires
        1 <= m <= 12,
    ensures
        days_before_month(leap, m + 1) == days_before_month(leap, m) + month_days(leap, m),
        days_before_month(leap, m) + month_days(leap, m) <= (if leap { 366int } else { 365int }),
{
}

/// A year's days, in seconds, are the year's length.
pub proof fn lemma_days_of_year(y: int)
    ensures
        days_before_month(spec_is_leap(y), 13) * 86400 == year_seconds(y),
{
}

/// Days in month `m` of a year whose leap status is `leap`.
pub fn month_length(leap: bool, m: i64) -> (r: i64)
    requires
        1 <= m <= 12,
    ensures
        r as int == month_days(leap, m as int),
{
    if m == 2 {
        if leap {
            29
        } else {
            28
        }
    } else if m == 4 || m == 6 || m == 9 || m == 11 {
        30
    } else {
        31
    }
}

/// A civil date and time of day in the proleptic Gregorian calendar,
/// expressed in UTC.
#[derive(Clone, Copy, Debug, PartialEq, Eq, Structural)]
pub struct CivilDateTime {
    /// Proleptic Gregorian year, astronomical numbering (0 and negative
    /// years are valid).
    pub year: i64,
    /// Month of the year, 1 through 12.
    pub month: i64,
    /// Day of the month, 1 through the month's length.
    pub day: i64,
    /// Hour of the day, 0 through 23.
    pub hour: i64,
    /// Minute of the hour, 0 through 59.
    pub minute: i64,
    /// Second of the minute, 0 through 59.
    pub second: i64,
}

impl CivilDateTime {
    /// The calendar's range invariants: every field lies in its place, the
    /// day respecting the month's length in this year.
    pub open spec fn wf(self) -> bool {
        &&& 1 <= self.month <= 12
        &&& 1 <= self.day <= month_days(spec_is_leap(self.year as int), self.month as int)
        &&& 0 <= self.hour <= 23
        &&& 0 <= self.minute <= 59
        &&& 0 <= self.second <= 59
    }

    /// The epoch-second count this date and time of day stands for.
    pub open spec fn timestamp(self) -> int {
        year_start(self.year as int) + (days_before_month(
            spec_is_leap(self.year as int),
            self.month as int,
        ) + (self.day - 1)) * 86400 + self.hour * 3600 + self.minute * 60 + self.second
    }
}

/// The cumulative day table is monotone in the month.
pub proof fn lemma_days_before_mono(leap: bool, m1: int, m2: int)
    requires
        1 <= m1 <= m2 <= 13,
    ensures
        days_before_month(leap, m1) <= days_before_month(leap, m2),
{
}

/// Every well-formed civil instant lies inside its own calendar year: its
/// epoch-second count is at least the year's first instant and strictly
/// before the next year's first instant.
pub proof fn lemma_timestamp_in_year(d: CivilDateTime)
    requires
        d.wf(),
    ensures
        year_start(d.year as int) <= d.timestamp(),
        d.timestamp() < year_start(d.year as int + 1),
{
    let leap = spec_is_leap(d.year as int);
    lemma_month_table(leap, d.month as int);
    lemma_days_of_year(d.year as int);
    lemma_year_start_succ(d.year as int);
    let db = days_before_month(leap, d.month as int);
    let di = db + (d.day - 1);
    let diy = days_before_month(leap, 13);
    assert(db >= 0);
    assert(di + 1 <= diy);
    assert(di * 86400 >= 0) by (nonlinear_arith)
        requires
            di >= 0,
    ;
    assert(di * 86400 <= (diy - 1) * 86400) by (nonlinear_arith)
        requires
            di <= diy - 1,
    ;
}

/// A well-formed civil instant in a common (non-leap) year is never
/// February 29.
pub proof fn lemma_no_leap_day_in_common_year(d: CivilDateTime)
    requires
        d.wf(),
        !spec_is_leap(d.year as int),
    ensures
        !(d.month == 2 && d.day == 29),
{
}

/// Two well-formed civil instants standing for the same epoch-second count
/// are the same instant: the calendar encoding is injective, so together
/// with `unix_to_civil`'s contract the decomposition is the one well-formed
/// answer for each timestamp.
pub proof fn lemma_civil_unique(a: CivilDateTime, b: CivilDateTime)
    requires
        a.wf(),
        b.wf(),
        a.timestamp() == b.timestamp(),
    ensures
        a == b,
{
    lemma_timestamp_in_year(a);
    lemma_timestamp_in_year(b);
    if a.year < b.year {
        lemma_year_start_succ(a.year as int);
        lemma_year_start_mono(a.year as int, b.year as int);
        assert(false);
    }
    if b.year < a.year {
        lemma_year_start_succ(b.year as int);
        lemma_year_start_mono(b.year as int, a.year as int);
        assert(false);
    }
    let y = a.year as int;
    let leap = spec_is_leap(y);
    let dia = days_before_month(leap, a.month as int) + (a.day - 1);
    let dib = days_before_month(leap, b.month as int) + (b.day - 1);
    let ta = a.hour * 3600 + a.minute * 60 + a.second;
    let tb = b.hour * 3600 + b.minute * 60 + b.second;
    assert(dia * 86400 + ta == dib * 86400 + tb);
    assert(dia == dib) by (nonlinear_arith)
        requires
            dia * 86400 + ta == dib * 86400 + tb,
            0 <= ta < 86400,
            0 <= tb < 86400,
    ;
    if a.month < b.month {
        lemma_month_table(leap, a.month as int);
        lemma_days_before_mono(leap, a.month as int + 1, b.month as int);
        assert(false);
    }
    if b.month < a.month {
        lemma_month_table(leap, b.month as int);
        lemma_days_before_mono(leap, b.month as int + 1, a.month as int);
        assert(false);
    }
    assert(a.day == b.day);
    assert(ta == tb);
    assert(a.hour == b.hour) by (nonlinear_arith)
        requires
            a.hour * 3600 + a.minute * 60 + a.second == b.hour * 3600 + b.minute * 60 + b.second,
            0 <= a.minute * 60 + a.second < 3600,
            0 <= b.minute * 60 + b.second < 3600,
    ;
    assert(a.minute == b.minute);
    assert(a.second == b.second);
}

/// Decomposes an epoch-second count into the civil date and time of day
/// containing it.  The result is well formed and re-encodes to exactly `t`:
/// it is the one civil instant standing for `t`.
pub fn unix_to_civil(t: i64) -> (d: CivilDateTime)
    ensures
        d.wf(),
        d.timestamp() == t as int,
{
    let t_wide: i128 = t as i128;
    let mut year: i64 = 1970;
    let mut cursor: i128 = 0;

    if t < 0 {
        proof {
            lemma_year_start_succ(1970);
        }
        while cursor > t_wide
            invariant
                t_wide == t as int,
                t < 0,
                year <= 1970,
                cursor == year_start(year as int),
                t_wide < year_start(year as int + 1),
            // padded by one leap year's seconds: the last step may take the
            // cursor below the target, so the bare distance could end negative
            decreases cursor - t_wide + 31622400,
        {
            proof {
                lemma_year_start_linear(year as int);
                assert(COMMON_YEAR_SECONDS == 31536000);
                assert((year as int - 1970) * 31536000 >= year_start(year as int));
                assert((year as int - 1970) * 31536000 > i64::MIN as int);
                assert(year as int - 1970 >= -292471208678);
            }
            let ys = seconds_of_year(year - 1);
            proof {
                lemma_year_start_succ(year as int - 1);
            }
            year = year - 1;
            cursor = cursor - ys as i128;
        }
    } else {
        let mut ys = seconds_of_year(year);
        while cursor + ys as i128 <= t_wide
            invariant
                t_wide == t as int,
                t >= 0,
                year >= 1970,
                cursor == year_start(year as int),
                ys as int == year_seconds(year as int),
                cursor <= t_wide,
            decreases t_wide - cursor,
        {
            proof {
                lemma_year_start_linear(year as int);
                lemma_year_start_succ(year as int);
                assert(COMMON_YEAR_SECONDS == 31536000);
                assert((year as int - 1970) * 31536000 <= year_start(year as int));
                assert((year as int - 1970) * 31536000 < i64::MAX as int);
                assert(year as int - 1970 <= 292471208678);
            }
            cursor = cursor + ys as i128;
            year = year + 1;
            ys = seconds_of_year(year);
        }
    }
    proof {
        lemma_year_start_succ(year as int);
    }
    assert(cursor == year_start(year as int));
    assert(cursor <= t_wide < year_start(year as int) + year_seconds(year as int));

    let leap = is_leap(year);
    let mut month: i64 = 1;
    let mut ml: i64 = month_length(leap, 1);
    while month < 12 && cursor + (ml as i128) * 86400 <= t_wide
        invariant
            t_wide == t as int,
            1 <= month <= 12,
            leap == spec_is_leap(year as int),
            ml as int == month_days(leap, month as int),
            cursor == year_start(year as int) + days_before_month(leap, month as int) * 86400,
            cursor <= t_wide,
            t_wide < year_start(year as int) + year_seconds(year as int),
        decreases 12 - month,
    {
        proof {
            lemma_month_table(leap, month as int);
        }
        cursor = cursor + (ml as i128) * 86400;
        month = month + 1;
        ml = month_length(leap, month);
    }
    proof {
        lemma_month_table(leap, month as int);
        lemma_days_of_year(year as int);
        if month == 12 {
            assert(days_before_month(leap, 13) == days_before_month(leap, 12) + month_days(
                leap,
                12,
            ));
        }
    }
    assert(t_wide < cursor + (ml as int) * 86400);

    let rem: u64 = (t_wide - cursor) as u64;
    assert(rem as int == t_wide - cursor);
    let day_off: u64 = rem / 86400;
    let rem_day: u64 = rem % 86400;
    let hour: u64 = rem_day / 3600;
    let rem_hour: u64 = rem_day % 3600;
    let minute: u64 = rem_hour / 60;
    let second: u64 = rem_hour % 60;

    assert(day_off < ml as u64) by {
        assert(rem < (ml as u64) * 86400);
    };

    let d = CivilDateTime {
        year,
        month,
        day: 1 + day_off as i64,
        hour: hour as i64,
        minute: minute as i64,
        second: second as i64,
    };
    assert(d.timestamp() == t as int) by {
        assert(rem == 86400 * day_off + rem_day);
        assert(rem_day == 3600 * hour + rem_hour);
        assert(rem_hour == 60 * minute + second);
    };
    d
}

/// Re-encodes a well-formed civil date and time of day as its epoch-second
/// count, the inverse of `unix_to_civil`.  The bound on `d.timestamp()` is
/// the machine limit of the result type; every value `unix_to_civil`
/// returns satisfies it.
pub fn civil_to_unix(d: &CivilDateTime) -> (t: i64)
    requires
        d.wf(),
        i64::MIN <= d.timestamp() <= i64::MAX,
    ensures
        t as int == d.timestamp(),
{
    proof {
        lemma_timestamp_in_year(*d);
        lemma_year_start_succ(d.year as int);
    }
    assert(i64::MIN - 31622400 <= year_start(d.year as int) <= i64::MAX as int);

    proof {
        lemma_year_start_linear(d.year as int);
        assert(COMMON_YEAR_SECONDS == 31536000);
        if d.year as int >= 1970 {
            assert((d.year as int - 1970) * 31536000 >= 0) by (nonlinear_arith)
                requires
                    d.year as int >= 1970,
            ;
        } else {
            assert((d.year as int - 1970) * 31536000 <= 0) by (nonlinear_arith)
                requires
                    d.year as int <= 1970,
            ;
        }
    }
    let mut year: i64 = 1970;
    let mut cursor: i128 = 0;
    if d.year >= 1970 {
        while year < d.year
            invariant
                1970 <= year <= d.year,
                cursor == year_start(year as int),
                year_start(d.year as int) <= i64::MAX as int,
                0 <= cursor <= year_start(d.year as int),
            decreases d.year as int - year,
        {
            proof {
                lemma_year_start_succ(year as int);
                lemma_year_start_linear(year as int + 1);
                if year + 1 < d.year {
                    lemma_year_start_mono(year as int + 1, d.year as int);
                }
            }
            let ys = seconds_of_year(year);
            cursor = cursor + ys as i128;
            year = year + 1;
        }
    } else {
        while year > d.year
            invariant
                d.year <= year <= 1970,
                cursor == year_start(year as int),
                year_start(d.year as int) >= i64::MIN - 31622400,
                year_start(d.year as int) <= cursor <= 0,
            decreases year as int - d.year as int,
        {
            proof {
                lemma_year_start_succ(year as int - 1);
                lemma_year_start_linear(year as int - 1);
                if d.year < year - 1 {
                    lemma_year_start_mono(d.year as int, year as int - 1);
                }
            }
            let ys = seconds_of_year(year - 1);
            year = year - 1;
            cursor = cursor - ys as i128;
        }
    }
    assert(cursor == year_start(d.year as int));

    let leap = is_leap(d.year);
    let mut month: i64 = 1;
    let mut days: i64 = 0;
    while month < d.month
        invariant
            1 <= month <= d.month,
            d.month <= 12,
            leap == spec_is_leap(d.year as int),
            days as int == days_before_month(leap, month as int),
            0 <= days <= 366,
        decreases d.month as int - month,
    {
        proof {
            lemma_month_table(leap, month as int);
        }
        days = days + month_length(leap, month);
        month = month + 1;
    }
    assert(days as int == days_before_month(leap, d.month as int));

    let total: i128 = cursor + ((days as i128) + (d.day as i128) - 1) * 86400 + (d.hour as i128)
        * 3600 + (d.minute as i128) * 60 + (d.second as i128);
    assert(total == d.timestamp());
    total as i64
}

} // verus!
