use civiltime::calendar::{civil_to_unix, is_leap, seconds_of_year, unix_to_civil, CivilDateTime};
use civiltime::render::{format_civil, parse_unix};

fn fields(d: &CivilDateTime) -> (i64, i64, i64, i64, i64, i64) {
    (d.year, d.month, d.day, d.hour, d.minute, d.second)
}

#[test]
fn epoch_fixed_point() {
    assert_eq!(parse_unix(0), "1 January 1970, 00:00:00 UTC");
    let d = unix_to_civil(0);
    assert_eq!(fields(&d), (1970, 1, 1, 0, 0, 0));
}

#[test]
fn round_trip_samples() {
    let samples: [i64; 24] = [
        0,
        1,
        -1,
        59,
        60,
        309,
        86399,
        86400,
        -86400,
        -86401,
        31535999,
        31536000,
        946684799,
        946684800,
        1582934400,
        1614556799,
        2147483647,
        -2203891201,
        951782400,
        32503680000,
        253402300799,
        -62135596800,
        -62162121600,
        -63549316800,
    ];
    for &t in samples.iter() {
        let d = unix_to_civil(t);
        assert!(1 <= d.month && d.month <= 12);
        assert!(1 <= d.day && d.day <= 31);
        assert!(0 <= d.hour && d.hour <= 23);
        assert!(0 <= d.minute && d.minute <= 59);
        assert!(0 <= d.second && d.second <= 59);
        assert_eq!(civil_to_unix(&d), t);
    }
}

#[test]
fn leap_day_2020() {
    let d = unix_to_civil(1582934400);
    assert_eq!(fields(&d), (2020, 2, 29, 0, 0, 0));
    assert_eq!(format_civil(&d), "29 February 2020, 00:00:00 UTC");
}

#[test]
fn no_leap_day_in_2021() {
    // The last second of February 2021 is the 28th; the next second is
    // already March, so no timestamp renders as 29 February 2021.
    let d = unix_to_civil(1614556799);
    assert_eq!(fields(&d), (2021, 2, 28, 23, 59, 59));
    let e = unix_to_civil(1614556800);
    assert_eq!(fields(&e), (2021, 3, 1, 0, 0, 0));
}

#[test]
fn year_rollover_positive() {
    assert_eq!(parse_unix(946684799), "31 December 1999, 23:59:59 UTC");
    assert_eq!(parse_unix(946684800), "1 January 2000, 00:00:00 UTC");
}

#[test]
fn year_rollover_negative() {
    let d = unix_to_civil(-1);
    assert_eq!(fields(&d), (1969, 12, 31, 23, 59, 59));
    assert_eq!(parse_unix(-1), "31 December 1969, 23:59:59 UTC");
}

#[test]
fn padding() {
    // Hour, minute and second below ten get a leading zero; day and year
    // are plain decimal with no padding.
    assert_eq!(parse_unix(309), "1 January 1970, 00:05:09 UTC");
    assert_eq!(parse_unix(3 * 3600 + 7 * 60 + 4), "1 January 1970, 03:07:04 UTC");
    assert_eq!(parse_unix(23 * 3600 + 59 * 60 + 59), "1 January 1970, 23:59:59 UTC");
}

#[test]
fn century_leap_exception() {
    // 1900 is divisible by 4 and 100 but not 400: not a leap year, so
    // February ends on the 28th.
    assert!(!is_leap(1900));
    let d = unix_to_civil(-2203891201);
    assert_eq!(fields(&d), (1900, 2, 28, 23, 59, 59));
    let e = unix_to_civil(-2203891200);
    assert_eq!(fields(&e), (1900, 3, 1, 0, 0, 0));

    // 2000 is divisible by 400: a leap year with a February 29.
    assert!(is_leap(2000));
    let f = unix_to_civil(951782400);
    assert_eq!(fields(&f), (2000, 2, 29, 0, 0, 0));
    let g = unix_to_civil(951868800);
    assert_eq!(fields(&g), (2000, 3, 1, 0, 0, 0));
}

#[test]
fn leap_rule_cases() {
    assert!(is_leap(2020));
    assert!(!is_leap(2021));
    assert!(!is_leap(2100));
    assert!(is_leap(1600));
    assert!(is_leap(0));
    assert!(is_leap(-44));
    assert!(!is_leap(-100));
    assert!(is_leap(-400));
}

#[test]
fn year_lengths() {
    assert_eq!(seconds_of_year(1970), 365 * 86400);
    assert_eq!(seconds_of_year(2020), 366 * 86400);
    assert_eq!(seconds_of_year(1900), 365 * 86400);
    assert_eq!(seconds_of_year(2000), 366 * 86400);
}

#[test]
fn dates_before_common_era() {
    // Astronomical numbering: year 0 exists and is a leap year, and years
    // below zero render with their sign.
    assert_eq!(parse_unix(-62135596800), "1 January 1, 00:00:00 UTC");
    assert_eq!(parse_unix(-62162121600), "29 February 0, 00:00:00 UTC");
    assert_eq!(parse_unix(-63549316800), "15 March -44, 12:00:00 UTC");
}

#[test]
fn far_future() {
    assert_eq!(parse_unix(2147483647), "19 January 2038, 03:14:07 UTC");
    assert_eq!(parse_unix(32503680000), "1 January 3000, 00:00:00 UTC");
    assert_eq!(parse_unix(253402300799), "31 December 9999, 23:59:59 UTC");
}

#[test]
fn month_names() {
    // First instant of each month of 1970, a common year.
    let firsts: [i64; 12] = [0, 31, 59, 90, 120, 151, 181, 212, 243, 273, 304, 334];
    let names: [&str; 12] = [
        "January",
        "February",
        "March",
        "April",
        "May",
        "June",
        "July",
        "August",
        "September",
        "October",
        "November",
        "December",
    ];
    for m in 0..12 {
        let t = firsts[m] * 86400;
        let d = unix_to_civil(t);
        assert_eq!(d.month, (m + 1) as i64);
        assert_eq!(d.day, 1);
        assert_eq!(format_civil(&d), format!("1 {} 1970, 00:00:00 UTC", names[m]));
    }
}

#[test]
fn month_boundaries_within_year() {
    // Crossing from the last second of a 30-day month into the next.
    let april_end = unix_to_civil((90 + 30) * 86400 - 1);
    assert_eq!(fields(&april_end), (1970, 4, 30, 23, 59, 59));
    let may_first = unix_to_civil((90 + 30) * 86400);
    assert_eq!(fields(&may_first), (1970, 5, 1, 0, 0, 0));
}
