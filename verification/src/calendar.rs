//! Proleptic Gregorian calendar arithmetic: mapping a unix timestamp to its
//! UTC calendar day and rendering that day as a `YYYY-MM-DD` string. This is
//! the key the daily aggregate table is bucketed by.

use vstd::prelude::*;
use crate::strutil::ascii_bytes_to_string;
use crate::strutil::ascii_chars;

verus! {

/// The last second of 9999-12-31, the largest timestamp whose calendar day
/// still fits the four-digit `YYYY-MM-DD` rendering.
pub const MAX_TIMESTAMP: i64 = 253402300799;

pub open spec fn spec_is_leap(y: int) -> bool {
    y % 4 == 0 && (y % 100 != 0 || y % 400 == 0)
}

pub open spec fn spec_days_in_year(y: int) -> int {
    if spec_is_leap(y) {
        366
    } else {
        365
    }
}

pub open spec fn spec_days_in_month(y: int, m: int) -> int {
    if m == 2 {
        if spec_is_leap(y) {
            29
        } else {
            28
        }
    } else if m == 4 || m == 6 || m == 9 || m == 11 {
        30
    } else {
        31
    }
}

/// Days from 1970-01-01 up to the first day of year `y`.
pub open spec fn spec_days_before_year(y: int) -> int
    decreases y - 1970,
{
    if y <= 1970 {
        0
    } else {
        spec_days_before_year(y - 1) + spec_days_in_year(y - 1)
    }
}

/// Days from the first day of year `y` up to the first day of month `m`.
pub open spec fn spec_days_before_month(y: int, m: int) -> int
    decreases m,
{
    if m <= 1 {
        0
    } else {
        spec_days_before_month(y, m - 1) + spec_days_in_month(y, m - 1)
    }
}

/// Starting at year `y` with `rem` days left over, the year the day falls in
/// and the remaining days into that year.
pub open spec fn spec_year_split(y: int, rem: int) -> (int, int)
    decreases rem,
{
    if rem < spec_days_in_year(y) {
        (y, rem)
    } else {
        spec_year_split(y + 1, rem - spec_days_in_year(y))
    }
}

/// Starting at month `m` of year `y` with `rem` days left over, the month the
/// day falls in and the remaining days into that month.
pub open spec fn spec_month_split(y: int, m: int, rem: int) -> (int, int)
    decreases rem,
{
    if rem < spec_days_in_month(y, m) {
        (m, rem)
    } else {
        spec_month_split(y, m + 1, rem - spec_days_in_month(y, m))
    }
}

/// The (year, month, day-of-month) of day number `day` (days since
/// 1970-01-01).
pub open spec fn spec_civil_of_day(day: int) -> (int, int, int) {
    let ys = spec_year_split(1970, day);
    let ms = spec_month_split(ys.0, 1, ys.1);
    (ys.0, ms.0, ms.1 + 1)
}

pub open spec fn spec_digit_char(d: int) -> char {
    ((48 + d) as u8) as char
}

/// The ten characters `YYYY-MM-DD` for a calendar date.
pub open spec fn spec_date_chars(y: int, m: int, d: int) -> Seq<char> {
    seq![
        spec_digit_char((y / 1000) % 10),
        spec_digit_char((y / 100) % 10),
        spec_digit_char((y / 10) % 10),
        spec_digit_char(y % 10),
        '-',
        spec_digit_char((m / 10) % 10),
        spec_digit_char(m % 10),
        '-',
        spec_digit_char((d / 10) % 10),
        spec_digit_char(d % 10),
    ]
}

/// The `YYYY-MM-DD` rendering of the UTC calendar day of timestamp `ts`.
pub open spec fn spec_date_of_timestamp(ts: int) -> Seq<char> {
    let c = spec_civil_of_day(ts / 86400);
    spec_date_chars(c.0, c.1, c.2)
}

pub fn is_leap(y: i64) -> (r: bool)
    ensures
        r == spec_is_leap(y as int),
{
    y % 4 == 0 && (y % 100 != 0 || y % 400 == 0)
}

pub fn days_in_year(y: i64) -> (r: i64)
    ensures
        r == spec_days_in_year(y as int),
{
    if is_leap(y) {
        366
    } else {
        365
    }
}

pub fn days_in_month(y: i64, m: i64) -> (r: i64)
    ensures
        r == spec_days_in_month(y as int, m as int),
{
    if m == 2 {
        if is_leap(y) {
            29
        } else {
            28
        }
    } else if m == 4 || m == 6 || m == 9 || m == 11 {
        30
    } else {
        31
    }
}

/// Leap years in `[1, y)`, counted by the inclusion-exclusion closed form.
spec fn spec_leaps_upto(y: int) -> int {
    (y - 1) / 4 - (y - 1) / 100 + (y - 1) / 400
}

proof fn lemma_leaps_step(y: int)
    requires
        y >= 1,
    ensures
        spec_leaps_upto(y + 1) - spec_leaps_upto(y) == if spec_is_leap(y) {
            1int
        } else {
            0int
        },
{
    assert(y / 4 - (y - 1) / 4 == if y % 4 == 0 {
        1int
    } else {
        0int
    });
    assert(y / 100 - (y - 1) / 100 == if y % 100 == 0 {
        1int
    } else {
        0int
    });
    assert(y / 400 - (y - 1) / 400 == if y % 400 == 0 {
        1int
    } else {
        0int
    });
    assert(y % 100 == 0 ==> y % 4 == 0);
    assert(y % 400 == 0 ==> y % 100 == 0);
}

proof fn lemma_days_before_year_closed(y: int)
    requires
        y >= 1970,
    ensures
        spec_days_before_year(y) == 365 * (y - 1970) + spec_leaps_upto(y) - spec_leaps_upto(1970),
    decreases y - 1970,
{
    if y > 1970 {
        lemma_days_before_year_closed(y - 1);
        lemma_leaps_step(y - 1);
    }
}

/// Total days in years 1970 through 9999: the bound that keeps the year
/// search inside four digits.
proof fn lemma_days_before_year_10000()
    ensures
        spec_days_before_year(10000) == 2932897,
{
    lemma_days_before_year_closed(10000);
}

proof fn lemma_days_before_year_monotonic(a: int, b: int)
    requires
        1970 <= a <= b,
    ensures
        spec_days_before_year(a) <= spec_days_before_year(b),
    decreases b - a,
{
    if a < b {
        lemma_days_before_year_monotonic(a, b - 1);
    }
}

proof fn lemma_days_before_month_in_year(y: int)
    ensures
        spec_days_before_month(y, 13) == spec_days_in_year(y),
{
    reveal_with_fuel(spec_days_before_month, 14);
}

/// The (year, month, day) of day number `day`, for days up to 9999-12-31.
pub fn civil_of_day(day: i64) -> (r: (i64, i64, i64))
    requires
        0 <= day < 2932897,
    ensures
        (r.0 as int, r.1 as int, r.2 as int) == spec_civil_of_day(day as int),
        1970 <= r.0 <= 9999,
        1 <= r.1 <= 12,
        1 <= r.2 <= 31,
{
    let mut y: i64 = 1970;
    let mut rem: i64 = day;
    loop
        invariant
            1970 <= y,
            y - 1970 <= day - rem,
            0 <= rem <= day < 2932897,
            spec_year_split(1970, day as int) == spec_year_split(y as int, rem as int),
            spec_days_before_year(y as int) == day - rem,
        ensures
            1970 <= y <= 9999,
            0 <= rem,
            spec_year_split(1970, day as int) == (y as int, rem as int),
            rem < spec_days_in_year(y as int),
        decreases rem,
    {
        let len: i64 = days_in_year(y);
        if rem < len {
            proof {
                if y as int >= 10000 {
                    lemma_days_before_year_10000();
                    lemma_days_before_year_monotonic(10000, y as int);
                    assert(false);
                }
            }
            break;
        }
        rem = rem - len;
        y = y + 1;
    }
    let ghost ys1: int = rem as int;
    let mut m: i64 = 1;
    loop
        invariant
            1 <= m <= 12,
            0 <= rem,
            1970 <= y <= 9999,
            ys1 < spec_days_in_year(y as int),
            spec_year_split(1970, day as int) == (y as int, ys1),
            spec_month_split(y as int, 1, ys1) == spec_month_split(y as int, m as int, rem as int),
            spec_days_before_month(y as int, m as int) == ys1 - rem,
        ensures
            1 <= m <= 12,
            0 <= rem,
            spec_month_split(y as int, 1, ys1) == (m as int, rem as int),
            rem < spec_days_in_month(y as int, m as int),
        decreases 12 - m,
    {
        let len: i64 = days_in_month(y, m);
        if rem < len {
            break;
        }
        proof {
            if m as int == 12 {
                lemma_days_before_month_in_year(y as int);
                assert(spec_days_before_month(y as int, 13) == spec_days_before_month(y as int, 12)
                    + spec_days_in_month(y as int, 12));
                assert(false);
            }
        }
        rem = rem - len;
        m = m + 1;
    }
    (y, m, rem + 1)
}

/// The `YYYY-MM-DD` string for the UTC calendar day of timestamp `ts`.
pub fn date_string_of_timestamp(ts: i64) -> (r: String)
    requires
        0 <= ts <= MAX_TIMESTAMP,
    ensures
        r@ == spec_date_of_timestamp(ts as int),
{
    let day: i64 = ts / 86400;
    assert(day == ts as int / 86400);
    assert(day < 2932897) by {
        assert(ts as int / 86400 <= 253402300799int / 86400);
    };
    let c = civil_of_day(day);
    let (y, m, d) = c;
    let mut bytes: Vec<u8> = Vec::new();
    bytes.push((48 + (y / 1000) % 10) as u8);
    bytes.push((48 + (y / 100) % 10) as u8);
    bytes.push((48 + (y / 10) % 10) as u8);
    bytes.push((48 + y % 10) as u8);
    bytes.push(45);
    bytes.push((48 + (m / 10) % 10) as u8);
    bytes.push((48 + m % 10) as u8);
    bytes.push(45);
    bytes.push((48 + (d / 10) % 10) as u8);
    bytes.push((48 + d % 10) as u8);
    let r = ascii_bytes_to_string(bytes);
    proof {
        assert((45u8) as char == '-');
        assert(r@ =~= spec_date_chars(y as int, m as int, d as int));
    }
    r
}


/// The fifteen characters `Thh:mm:ss+00:00` for a time of day in UTC.
pub open spec fn spec_time_chars(h: int, mi: int, sec: int) -> Seq<char> {
    seq![
        'T',
        spec_digit_char(h / 10),
        spec_digit_char(h % 10),
        ':',
        spec_digit_char(mi / 10),
        spec_digit_char(mi % 10),
        ':',
        spec_digit_char(sec / 10),
        spec_digit_char(sec % 10),
        '+',
        '0',
        '0',
        ':',
        '0',
        '0',
    ]
}

/// The RFC 3339 rendering of timestamp `ts` in UTC:
/// `YYYY-MM-DDThh:mm:ss+00:00`.
pub open spec fn spec_rfc3339_of_timestamp(ts: int) -> Seq<char> {
    let sec = ts % 86400;
    spec_date_of_timestamp(ts) + spec_time_chars(sec / 3600, (sec % 3600) / 60, sec % 60)
}

/// Render a timestamp as RFC 3339 text in UTC.
#[verifier::rlimit(60)]
pub fn rfc3339_utc_string(ts: i64) -> (r: String)
    requires
        0 <= ts <= MAX_TIMESTAMP,
    ensures
        r@ == spec_rfc3339_of_timestamp(ts as int),
{
    let day: i64 = ts / 86400;
    assert(day == ts as int / 86400);
    assert(day < 2932897) by {
        assert(ts as int / 86400 <= 253402300799int / 86400);
    };
    let c = civil_of_day(day);
    let (y, m, d) = c;
    let sec: i64 = ts % 86400;
    let h: i64 = sec / 3600;
    let mi: i64 = (sec % 3600) / 60;
    let s2: i64 = sec % 60;
    let mut bytes: Vec<u8> = Vec::new();
    bytes.push((48 + (y / 1000) % 10) as u8);
    bytes.push((48 + (y / 100) % 10) as u8);
    bytes.push((48 + (y / 10) % 10) as u8);
    bytes.push((48 + y % 10) as u8);
    bytes.push(45);
    bytes.push((48 + (m / 10) % 10) as u8);
    bytes.push((48 + m % 10) as u8);
    bytes.push(45);
    bytes.push((48 + (d / 10) % 10) as u8);
    bytes.push((48 + d % 10) as u8);
    bytes.push(84);
    bytes.push((48 + h / 10) as u8);
    bytes.push((48 + h % 10) as u8);
    bytes.push(58);
    bytes.push((48 + mi / 10) as u8);
    bytes.push((48 + mi % 10) as u8);
    bytes.push(58);
    bytes.push((48 + s2 / 10) as u8);
    bytes.push((48 + s2 % 10) as u8);
    bytes.push(43);
    bytes.push(48);
    bytes.push(48);
    bytes.push(58);
    bytes.push(48);
    bytes.push(48);
    let r = ascii_bytes_to_string(bytes);
    proof {
        assert((45u8) as char == '-');
        assert((84u8) as char == 'T');
        assert((58u8) as char == ':');
        assert((43u8) as char == '+');
        assert((48u8) as char == '0');
        assert(r@ =~= spec_rfc3339_of_timestamp(ts as int));
    }
    r
}

} // verus!
