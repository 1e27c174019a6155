//! The Gregorian calendar: days and seconds since 1970 and back.

use vstd::prelude::*;

use crate::text::{dec, digit_char, int_dec, number, pad2, push_int, push_pad2};

verus! {

/// Years this far from zero keep every count of days inside an `i64`.
pub const YEAR_LIMIT: i64 = 25_000_000_000_000_000;

/// Days this far from zero do so too.
pub const DAY_LIMIT: i64 = 50_000_000_000_000_000;

/// Whether a year has a 29th of February.
#[verifier::opaque]
pub open spec fn leap(y: int) -> bool {
    y % 4 == 0 && (y % 100 != 0 || y % 400 == 0)
}

/// Days of a month.
pub open spec fn month_days(y: int, m: int) -> int {
    if m == 2 {
        if leap(y) {
            29
        } else {
            28
        }
    } else if m == 4 || m == 6 || m == 9 || m == 11 {
        30
    } else {
        31
    }
}

/// How many days a month has.
pub fn days_in_month(y: i64, m: i64) -> (r: i64)
    requires
        0 <= y,
    ensures
        r == month_days(y as int, m as int),
        28 <= r <= 31,
{
    proof {
        reveal(leap);
    }
    if m == 2 {
        if y % 4 == 0 && (y % 100 != 0 || y % 400 == 0) {
            29
        } else {
            28
        }
    } else if m == 4 || m == 6 || m == 9 || m == 11 {
        30
    } else {
        31
    }
}

/// Days of a year before a month.
pub open spec fn days_before_month(y: int, m: int) -> int
    decreases m,
{
    if m <= 1 {
        0
    } else {
        days_before_month(y, m - 1) + month_days(y, m - 1)
    }
}

/// Days before a year, counted from the first day of the year 1.
#[verifier::opaque]
pub open spec fn days_before_year(y: int) -> int {
    365 * (y - 1) + (y - 1) / 4 - (y - 1) / 100 + (y - 1) / 400
}

/// Days from 1 January 1970 to a date.
#[verifier::opaque]
pub open spec fn day_number(y: int, m: int, d: int) -> int {
    days_before_year(y) - days_before_year(1970) + days_before_month(y, m) + d - 1
}

/// Whether a date is one of the calendar.
pub open spec fn valid_date(y: int, m: int, d: int) -> bool {
    1 <= m <= 12 && 1 <= d <= month_days(y, m)
}

/// Seconds from the start of 1970 to a time of day on a date.
pub open spec fn second_number(y: int, m: int, d: int, h: int, mi: int, s: int) -> int {
    day_number(y, m, d) * 86400 + h * 3600 + mi * 60 + s
}

/// Whether a time of day is one of the clock.
pub open spec fn valid_time(h: int, mi: int, s: int) -> bool {
    0 <= h < 24 && 0 <= mi < 60 && 0 <= s < 60
}

/// The date of a day number.
#[verifier::opaque]
pub open spec fn date_of(n: int) -> (int, int, int) {
    choose|y: int, m: int, d: int| valid_date(y, m, d) && #[trigger] day_number(y, m, d) == n
}

/// Year, month, day, hour, minute and second of a count of seconds since 1970.
pub open spec fn civil(t: int) -> (int, int, int, int, int, int) {
    let (y, m, d) = date_of(t / 86400);
    let sod = t % 86400;
    (y, m, d, sod / 3600, sod % 3600 / 60, sod % 60)
}

/// Division that cuts towards zero.
pub open spec fn cut_div(a: int, b: int) -> int {
    if a >= 0 {
        a / b
    } else {
        -((-a) / b)
    }
}

/// Day number by a year that starts in March: the `mp`-th month after March of
/// the year `y`.
#[verifier::opaque]
pub open spec fn march_number(y: int, mp: int, d: int) -> int {
    365 * y + y / 4 - y / 100 + y / 400 + cut_div(153 * mp + 2, 5) + d - 1 - 719468
}

/// The month after March that `m` stands for, cut towards zero.
pub open spec fn march_month(m: int) -> int {
    m + 9 - 12 * cut_div(m + 9, 12)
}

/// The year is followed by the next after 365 or 366 days.
pub proof fn year_length(y: int)
    ensures
        days_before_year(y + 1) - days_before_year(y) == days_before_month(y, 13),
        days_before_month(y, 13) == if leap(y) {
            366int
        } else {
            365int
        },
{
    reveal_with_fuel(days_before_month, 14);
    reveal(days_before_year);
    reveal(leap);
}

/// The days before a month, written out: from March on by the rule of 153 days
/// in five months.
proof fn lemma_month_table(y: int, m: int)
    requires
        1 <= m <= 12,
    ensures
        0 <= march_month(m) <= 11,
        m <= 2 ==> march_month(m) == m + 9 && days_before_month(y, m) == (153 * (m + 9) + 2) / 5 - 306,
        m > 2 ==> march_month(m) == m - 3 && days_before_month(y, m) == (153 * (m - 3) + 2) / 5 + 59 + (if leap(y) {
            1int
        } else {
            0int
        }),
{
    reveal_with_fuel(days_before_month, 13);
}

/// The count by March years agrees with the calendar.
proof fn lemma_march(y: int, m: int, d: int)
    requires
        1 <= m <= 12,
    ensures
        march_number(if m <= 2 {
            y - 1
        } else {
            y
        }, march_month(m), d) == day_number(y, m, d),
{
    lemma_month_table(y, m);
    reveal(march_number);
    reveal(day_number);
    assert(days_before_year(1970) == 719162) by {
        reveal(days_before_year);
    }
    if m <= 2 {
        assert(days_before_year(y) == 365 * (y - 1) + (y - 1) / 4 - (y - 1) / 100 + (y - 1) / 400) by {
            reveal(days_before_year);
        }
    } else {
        year_length(y);
        assert(days_before_year(y + 1) == 365 * y + y / 4 - y / 100 + y / 400) by {
            reveal(days_before_year);
        }
    }
}

/// Days from 1 January 1970 to a date. Days beyond the month count on; a month
/// outside the year is taken by its place in the year from March.
pub fn days_from_civil(y: i64, m: i64, d: i64) -> (r: i64)
    requires
        -YEAR_LIMIT <= y <= YEAR_LIMIT,
        -DAY_LIMIT <= d <= DAY_LIMIT,
        m <= i64::MAX - 9,
    ensures
        1 <= m <= 12 ==> r == day_number(y as int, m as int, d as int),
        r == march_number(if m <= 2 {
            y - 1
        } else {
            y as int
        }, march_month(m as int), d as int),
{
    let y1: i64 = if m <= 2 {
        y - 1
    } else {
        y
    };
    let era: i64 = (if y1 >= 0 {
        y1
    } else {
        y1 - 399
    }) / 400;
    assert(era == y1 as int / 400);
    let yoe: i64 = y1 - era * 400;
    let mp: i64 = (m + 9) % 12;
    assert(mp == march_month(m as int));
    let doy: i64 = (153 * mp + 2) / 5 + d - 1;
    let doe: i64 = yoe * 365 + yoe / 4 - yoe / 100 + doy;
    let r: i64 = era * 146_097 + doe - 719_468;
    proof {
        reveal(march_number);
        let e = era as int;
        let o = yoe as int;
        assert(y1 == 400 * e + o);
        assert((400 * e + o) / 4 == 100 * e + o / 4);
        assert((400 * e + o) / 100 == 4 * e + o / 100);
        if 1 <= m <= 12 {
            lemma_march(y as int, m as int, d as int);
        }
    }
    r
}

/// Century, group of four years, year and day of a day of a 400-year era that
/// starts in March. The last of each may be a day longer.
fn place_in_era(doe: i64) -> (r: (i64, i64, i64, i64))
    requires
        0 <= doe < 146_097,
    ensures
        0 <= r.0 <= 3,
        0 <= r.1 <= 24,
        0 <= r.2 <= 3,
        0 <= r.3 <= 365,
        r.3 == 365 ==> r.2 == 3 && (r.1 < 24 || r.0 == 3),
        doe == 36_524 * r.0 + 1461 * r.1 + 365 * r.2 + r.3,
{
    let c: i64 = if doe < 109_572 {
        doe / 36_524
    } else {
        3
    };
    let in_century: i64 = doe - 36_524 * c;
    let q: i64 = in_century / 1461;
    let in_four: i64 = in_century - 1461 * q;
    let k: i64 = if in_four < 1095 {
        in_four / 365
    } else {
        3
    };
    (c, q, k, in_four - 365 * k)
}

/// The day number of a date given by its place in an era.
proof fn lemma_era_number(era: int, c: int, q: int, k: int, doy: int)
    requires
        0 <= c <= 3,
        0 <= q <= 24,
        0 <= k <= 3,
        0 <= doy <= 365,
    ensures
        ({
            let mp = (5 * doy + 2) / 153;
            &&& 0 <= mp <= 11
            &&& march_number(400 * era + 100 * c + 4 * q + k, mp, doy - (153 * mp + 2) / 5 + 1) == 146_097 * era + 36_524 * c + 1461 * q
                + 365 * k + doy - 719_468
        }),
{
    reveal(march_number);
    let y = 400 * era + 100 * c + 4 * q + k;
    assert(y / 4 == 100 * era + 25 * c + q);
    assert(y / 100 == 4 * era + c);
    assert(y / 400 == era);
}

/// Year, month and day of a day number.
fn civil_from_days(days: i64) -> (r: (i64, i64, i64))
    requires
        -110_000_000_000_000 < days < 110_000_000_000_000,
    ensures
        valid_date(r.0 as int, r.1 as int, r.2 as int),
        day_number(r.0 as int, r.1 as int, r.2 as int) == days,
{
    let z: i64 = days + 719_468;
    let era: i64 = (if z >= 0 {
        z
    } else {
        z - 146_096
    }) / 146_097;
    let doe: i64 = z - era * 146_097;
    let (c, q, k, doy) = place_in_era(doe);
    let mp: i64 = (5 * doy + 2) / 153;
    let d: i64 = doy - (153 * mp + 2) / 5 + 1;
    let m: i64 = if mp < 10 {
        mp + 3
    } else {
        mp - 9
    };
    let march_year: i64 = 400 * era + 100 * c + 4 * q + k;
    let y: i64 = if m <= 2 {
        march_year + 1
    } else {
        march_year
    };
    proof {
        lemma_era_number(era as int, c as int, q as int, k as int, doy as int);
        lemma_date_fits(era as int, c as int, q as int, k as int, doy as int);
        lemma_march(y as int, m as int, d as int);
        assert(march_month(m as int) == mp);
    }
    (y, m, d)
}

/// Year, month, day, hour, minute and second of a count of seconds since 1970.
pub fn civil_from_secs(t: i64) -> (r: (i64, i64, i64, i64, i64, i64))
    ensures
        valid_date(r.0 as int, r.1 as int, r.2 as int),
        valid_time(r.3 as int, r.4 as int, r.5 as int),
        second_number(r.0 as int, r.1 as int, r.2 as int, r.3 as int, r.4 as int, r.5 as int) == t,
        (r.0 as int, r.1 as int, r.2 as int, r.3 as int, r.4 as int, r.5 as int) == civil(t as int),
{
    let cut: i64 = t % 86400;
    let sod: i64 = if cut < 0 {
        cut + 86400
    } else {
        cut
    };
    let days: i64 = if cut < 0 {
        t / 86400 - 1
    } else {
        t / 86400
    };
    let (y, m, d) = civil_from_days(days);
    proof {
        lemma_date_of(y as int, m as int, d as int);
        lemma_day_and_rest(t as int, days as int, sod as int);
        lemma_clock(sod as int);
    }
    (y, m, d, sod / 3600, sod % 3600 / 60, sod % 60)
}

/// The date of a date's number is that date.
proof fn lemma_date_of(y: int, m: int, d: int)
    requires
        valid_date(y, m, d),
    ensures
        date_of(day_number(y, m, d)) == (y, m, d),
{
    reveal(date_of);
    let (y2, m2, d2) = date_of(day_number(y, m, d));
    assert(valid_date(y2, m2, d2) && day_number(y2, m2, d2) == day_number(y, m, d));
    seconds_name_one_time(y, m, d, 0, 0, 0, y2, m2, d2, 0, 0, 0);
}

/// A time of the calendar is found again from its count of seconds.
pub proof fn civil_undoes_second_number(y: int, m: int, d: int, h: int, mi: int, s: int)
    requires
        valid_date(y, m, d),
        valid_time(h, mi, s),
    ensures
        civil(second_number(y, m, d, h, mi, s)) == (y, m, d, h, mi, s),
{
    let t = second_number(y, m, d, h, mi, s);
    let sod = h * 3600 + mi * 60 + s;
    lemma_date_of(y, m, d);
    lemma_day_and_rest(t, day_number(y, m, d), sod);
    assert(sod / 3600 == h);
    assert(sod % 3600 == mi * 60 + s);
    assert(sod % 60 == s);
}

/// A count of seconds as days and seconds of the day.
proof fn lemma_day_and_rest(t: int, n: int, sod: int)
    requires
        t == n * 86400 + sod,
        0 <= sod < 86400,
    ensures
        t / 86400 == n,
        t % 86400 == sod,
{
}

/// Seconds of a day as a time of the clock.
proof fn lemma_clock(sod: int)
    requires
        0 <= sod < 86400,
    ensures
        valid_time(sod / 3600, sod % 3600 / 60, sod % 60),
        sod / 3600 * 3600 + sod % 3600 / 60 * 60 + sod % 60 == sod,
{
}

/// Every count of seconds is that of a time of the calendar.
pub proof fn civil_is_a_time(t: int)
    ensures
        ({
            let (y, m, d, h, mi, s) = civil(t);
            valid_date(y, m, d) && valid_time(h, mi, s) && second_number(y, m, d, h, mi, s) == t
        }),
{
    let n = t / 86400;
    let z = n + 719_468;
    let era = z / 146_097;
    let doe = z % 146_097;
    let c = if doe < 109_572 {
        doe / 36_524
    } else {
        3
    };
    let in_century = doe - 36_524 * c;
    let q = in_century / 1461;
    let in_four = in_century - 1461 * q;
    let k = if in_four < 1095 {
        in_four / 365
    } else {
        3
    };
    let doy = in_four - 365 * k;
    let mp = (5 * doy + 2) / 153;
    let d = doy - (153 * mp + 2) / 5 + 1;
    let m = if mp < 10 {
        mp + 3
    } else {
        mp - 9
    };
    let y = 400 * era + 100 * c + 4 * q + k + (if m <= 2 {
        1int
    } else {
        0int
    });
    lemma_era_number(era, c, q, k, doy);
    lemma_date_fits(era, c, q, k, doy);
    lemma_march(y, m, d);
    assert(march_month(m) == mp);
    assert(day_number(y, m, d) == n);
    lemma_date_of(y, m, d);
    lemma_clock(t % 86400);
}

/// The day of a March year lies inside its month.
proof fn lemma_date_fits(era: int, c: int, q: int, k: int, doy: int)
    requires
        0 <= c <= 3,
        0 <= q <= 24,
        0 <= k <= 3,
        0 <= doy <= 365,
        doy == 365 ==> k == 3 && (q < 24 || c == 3),
    ensures
        ({
            let mp = (5 * doy + 2) / 153;
            let d = doy - (153 * mp + 2) / 5 + 1;
            let m = if mp < 10 {
                mp + 3
            } else {
                mp - 9
            };
            let y = 400 * era + 100 * c + 4 * q + k + (if m <= 2 {
                1int
            } else {
                0int
            });
            valid_date(y, m, d)
        }),
{
    let mp = (5 * doy + 2) / 153;
    let d = doy - (153 * mp + 2) / 5 + 1;
    let y = 400 * era + 100 * c + 4 * q + k + 1;
    if mp == 11 {
        assert(d <= 29);
        if d == 29 {
            assert(doy == 365);
            assert(leap(y)) by {
                reveal(leap);
                assert(y == 400 * era + 100 * c + 4 * (q + 1));
                if q == 24 {
                    assert(y == 400 * (era + 1));
                } else {
                    assert(y % 100 == 4 * (q + 1));
                }
            }
        }
    }
}

/// A later date of the calendar has a larger number.
proof fn lemma_dates_ordered(y: int, m: int, d: int, y2: int, m2: int, d2: int)
    requires
        valid_date(y, m, d),
        valid_date(y2, m2, d2),
        y < y2 || (y == y2 && (m < m2 || (m == m2 && d < d2))),
    ensures
        day_number(y, m, d) < day_number(y2, m2, d2),
{
    reveal(day_number);
    lemma_within_year(y, m, d);
    lemma_within_year(y2, m2, d2);
    if y < y2 {
        year_length(y);
        lemma_years_ordered(y + 1, y2);
    } else if m < m2 {
        lemma_months_ordered(y, m + 1, m2);
    }
}

/// The days of the years from 1970 to 2099 are numbered from zero on.
pub proof fn days_of_the_epoch(y: int, m: int, d: int)
    requires
        valid_date(y, m, d),
        1970 <= y <= 2099,
    ensures
        0 <= day_number(y, m, d) < 47_482,
{
    assert(day_number(1970, 1, 1) == 0) by {
        reveal(day_number);
    }
    assert(day_number(2100, 1, 1) == 47_482) by {
        reveal(day_number);
        reveal(days_before_year);
    }
    if y > 1970 || m > 1 || d > 1 {
        lemma_dates_ordered(1970, 1, 1, y, m, d);
    }
    lemma_dates_ordered(y, m, d, 2100, 1, 1);
}

/// The days before a date of a year are fewer than the year has.
proof fn lemma_within_year(y: int, m: int, d: int)
    requires
        valid_date(y, m, d),
    ensures
        0 <= days_before_month(y, m) + d - 1 < days_before_month(y, 13),
{
    lemma_months_ordered(y, 1, m);
    lemma_months_ordered(y, m + 1, 13);
}

/// Months follow each other.
proof fn lemma_months_ordered(y: int, m: int, m2: int)
    requires
        1 <= m <= m2,
    ensures
        days_before_month(y, m) <= days_before_month(y, m2),
    decreases m2 - m,
{
    if m < m2 {
        lemma_months_ordered(y, m, m2 - 1);
    }
}

/// Years follow each other.
proof fn lemma_years_ordered(y: int, y2: int)
    requires
        y <= y2,
    ensures
        days_before_year(y) <= days_before_year(y2),
    decreases y2 - y,
{
    if y < y2 {
        lemma_years_ordered(y, y2 - 1);
        year_length(y2 - 1);
    }
}

/// No two times of the calendar share a number, so a number of seconds stands
/// for one time only.
pub proof fn seconds_name_one_time(y: int, m: int, d: int, h: int, mi: int, s: int, y2: int, m2: int, d2: int, h2: int, mi2: int, s2: int)
    requires
        valid_date(y, m, d),
        valid_time(h, mi, s),
        valid_date(y2, m2, d2),
        valid_time(h2, mi2, s2),
        second_number(y, m, d, h, mi, s) == second_number(y2, m2, d2, h2, mi2, s2),
    ensures
        y == y2,
        m == m2,
        d == d2,
        h == h2,
        mi == mi2,
        s == s2,
{
    assert(day_number(y, m, d) == day_number(y2, m2, d2));
    if (y, m, d) != (y2, m2, d2) {
        if y < y2 || (y == y2 && (m < m2 || (m == m2 && d < d2))) {
            lemma_dates_ordered(y, m, d, y2, m2, d2);
        } else {
            lemma_dates_ordered(y2, m2, d2, y, m, d);
        }
    }
}

/// `dd.mm.yyyy`
pub open spec fn date_text(y: int, m: int, d: int) -> Seq<char> {
    pad2(d) + "."@ + pad2(m) + "."@ + int_dec(y)
}

/// `hh:mm:ss`
pub open spec fn time_text(h: int, mi: int, s: int) -> Seq<char> {
    pad2(h) + ":"@ + pad2(mi) + ":"@ + pad2(s)
}

/// `dd.mm.yyyy hh:mm:ss`
pub open spec fn datetime_text(t: int) -> Seq<char> {
    let (y, m, d, h, mi, s) = civil(t);
    date_text(y, m, d) + " "@ + time_text(h, mi, s)
}

/// `dd.mm.yyyy`
pub fn fmt_date(y: i64, m: i64, d: i64) -> (r: String)
    ensures
        r@ == date_text(y as int, m as int, d as int),
{
    let mut r = String::new();
    push_pad2(&mut r, d);
    r.append(".");
    push_pad2(&mut r, m);
    r.append(".");
    push_int(&mut r, y);
    assert(r@ =~= date_text(y as int, m as int, d as int));
    r
}

/// `hh:mm:ss`
pub fn fmt_time(h: i64, mi: i64, s: i64) -> (r: String)
    ensures
        r@ == time_text(h as int, mi as int, s as int),
{
    let mut r = String::new();
    push_pad2(&mut r, h);
    r.append(":");
    push_pad2(&mut r, mi);
    r.append(":");
    push_pad2(&mut r, s);
    assert(r@ =~= time_text(h as int, mi as int, s as int));
    r
}

/// Date and time of a count of seconds since 1970, `dd.mm.yyyy hh:mm:ss`.
pub fn fmt_datetime(t: i64) -> (r: String)
    ensures
        r@ == datetime_text(t as int),
{
    let (y, m, d, h, mi, s) = civil_from_secs(t);
    let mut r = fmt_date(y, m, d);
    r.append(" ");
    r.append(fmt_time(h, mi, s).as_str());
    assert(r@ =~= datetime_text(t as int));
    r
}

/// How many days a month has, by the rule of the calendar.
pub open spec fn days_by_rule(y: int, m: int) -> int {
    if m == 2 {
        if (y % 4 == 0 && y % 100 != 0) || y % 400 == 0 {
            29
        } else {
            28
        }
    } else if m == 4 || m == 6 || m == 9 || m == 11 {
        30
    } else {
        31
    }
}

/// Days are counted from the first of January 1970, one by one: the day after a
/// day of a month is the next one, after the last day of a month comes the first
/// of the next month, and after the last of a year that of the next year. Dates
/// are exactly the days that months have.
pub proof fn days_count_on(y: int, m: int, d: int)
    requires
        1 <= m <= 12,
    ensures
        day_number(1970, 1, 1) == 0,
        valid_date(y, m, d) <==> 1 <= d <= days_by_rule(y, m),
        day_number(y, m, d + 1) == day_number(y, m, d) + 1,
        m < 12 ==> day_number(y, m + 1, 1) == day_number(y, m, days_by_rule(y, m)) + 1,
        m == 12 ==> day_number(y + 1, 1, 1) == day_number(y, 12, 31) + 1,
{
    reveal(leap);
    reveal(day_number);
    year_length(y);
    assert(days_before_month(y, m + 1) == days_before_month(y, m) + month_days(y, m));
    reveal_with_fuel(days_before_month, 2);
}

/// Seconds are counted from the start of 1970: each minute has sixty, each hour
/// sixty minutes and each day 24 hours; and a count tells the time of day.
pub proof fn seconds_count_on(y: int, m: int, d: int, h: int, mi: int, s: int)
    ensures
        second_number(1970, 1, 1, 0, 0, 0) == 0,
        second_number(y, m, d, h, mi, s + 1) == second_number(y, m, d, h, mi, s) + 1,
        second_number(y, m, d, h, mi + 1, s) == second_number(y, m, d, h, mi, s + 60),
        second_number(y, m, d, h + 1, mi, s) == second_number(y, m, d, h, mi + 60, s),
        second_number(y, m, d, h + 24, mi, s) - second_number(y, m, d, h, mi, s) == day_number(y, m, d + 1) * 86_400 - day_number(y, m, d) * 86_400,
        second_number(y, m, d, h, mi, s) - second_number(y, m, d, 0, 0, 0) == 3600 * h + 60 * mi + s,
        ({
            let t = second_number(y, m, d, h, mi, s);
            let c = civil(t);
            c.3 * 3600 + c.4 * 60 + c.5 == t % 86_400
        }),
{
    reveal(day_number);
    reveal_with_fuel(days_before_month, 2);
}

/// Two digits are read back as the number they stand for.
proof fn lemma_pad2(i: int)
    requires
        0 <= i < 100,
    ensures
        pad2(i).len() == 2,
        number(pad2(i)) == i,
{
    reveal_with_fuel(dec, 3);
    reveal_with_fuel(number, 3);
    let t = pad2(i);
    if i >= 10 {
        assert(t =~= seq![digit_char((i / 10) as nat), digit_char((i % 10) as nat)]);
    }
    assert(t.drop_last().drop_last() =~= Seq::<char>::empty());
    assert(number(t.drop_last().drop_last()) == 0);
}

/// A time is written in hours, minutes and seconds, a date in day, month and
/// year, each but the year in two digits, in this order.
pub proof fn dates_and_times_are_written_in_order(y: int, m: int, d: int, h: int, mi: int, s: int)
    requires
        valid_date(y, m, d),
        valid_time(h, mi, s),
    ensures
        ({
            let t = time_text(h, mi, s);
            &&& t.len() == 8 && t[2] == ':' && t[5] == ':'
            &&& number(t.subrange(0, 2)) == h && number(t.subrange(3, 5)) == mi && number(t.subrange(6, 8)) == s
        }),
        ({
            let t = date_text(y, m, d);
            &&& t.len() > 6 && t[2] == '.' && t[5] == '.'
            &&& number(t.subrange(0, 2)) == d && number(t.subrange(3, 5)) == m && t.skip(6) == int_dec(y)
        }),
        datetime_text(second_number(y, m, d, h, mi, s)) == date_text(y, m, d) + seq![' '] + time_text(h, mi, s),
{
    reveal_strlit(":");
    reveal_strlit(".");
    reveal_strlit(" ");
    assert(" "@ =~= seq![' ']);
    civil_undoes_second_number(y, m, d, h, mi, s);
    lemma_pad2(h);
    lemma_pad2(mi);
    lemma_pad2(s);
    assert(1 <= d <= 31 && 1 <= m <= 12);
    lemma_pad2(d);
    lemma_pad2(m);
    let t = time_text(h, mi, s);
    assert(t.subrange(0, 2) =~= pad2(h));
    assert(t.subrange(3, 5) =~= pad2(mi));
    assert(t.subrange(6, 8) =~= pad2(s));
    let u = date_text(y, m, d);
    assert(u.subrange(0, 2) =~= pad2(d));
    assert(u.subrange(3, 5) =~= pad2(m));
    assert(u.skip(6) =~= int_dec(y));
    reveal_with_fuel(dec, 2);
}

} // verus!
