//! Calendar dates of Unix times.
use crate::text;
use crate::text::{push_char, push_padded};
use vstd::prelude::*;

verus! {

/// `y` is a leap year of the Gregorian calendar.
pub open spec fn leap(y: int) -> bool {
    y % 4 == 0 && (y % 100 != 0 || y % 400 == 0)
}

/// The length of month `m` of year `y`.
pub open spec fn month_len(y: int, m: int) -> int {
    if m == 2 {
        if leap(y) {
            29
        } else {
            28
        }
    } else if m == 4 || m == 6 || m == 9 || m == 11 {
        30
    } else {
        31
    }
}

/// The days of year `y` before month `m`.
pub open spec fn days_before_month(y: int, m: int) -> int
    decreases m,
{
    if m <= 1 {
        0
    } else {
        days_before_month(y, m - 1) + month_len(y, m - 1)
    }
}

/// The days from the first day of year 1 to the first day of year `y`.
pub open spec fn days_before_year(y: int) -> int {
    365 * (y - 1) + (y - 1) / 4 - (y - 1) / 100 + (y - 1) / 400
}

/// The days from 1970-01-01 to the date `y`-`m`-`d`.
pub open spec fn days_to(y: int, m: int, d: int) -> int {
    days_before_year(y) + days_before_month(y, m) + d - 1 - 719162
}

/// `y`-`m`-`d` is a date.
pub open spec fn is_date(y: int, m: int, d: int) -> bool {
    1 <= m <= 12 && 1 <= d <= month_len(y, m)
}

/// A quotient moves on exactly at the multiples of the divisor.
proof fn lemma_quotient_step(y: int, k: int)
    requires
        k > 1,
    ensures
        y / k == (y - 1) / k + if y % k == 0 {
            1int
        } else {
            0int
        },
{
    vstd::arithmetic::div_mod::lemma_fundamental_div_mod(y, k);
    vstd::arithmetic::div_mod::lemma_fundamental_div_mod(y - 1, k);
    let q = y / k;
    if y % k == 0 {
        assert(y - 1 == k * (q - 1) + (k - 1)) by (nonlinear_arith)
            requires
                y == k * q,
        ;
        vstd::arithmetic::div_mod::lemma_fundamental_div_mod_converse(y - 1, k, q - 1, k - 1);
    } else {
        vstd::arithmetic::div_mod::lemma_mod_bound(y, k);
        assert(k * q == q * k) by (nonlinear_arith);
        vstd::arithmetic::div_mod::lemma_fundamental_div_mod_converse(y - 1, k, q, y % k - 1);
    }
}

/// How the leap-day terms change from one year to the next.
proof fn lemma_leap_step(y: int)
    ensures
        y / 4 - y / 100 + y / 400 == (y - 1) / 4 - (y - 1) / 100 + (y - 1) / 400 + if leap(y) {
            1int
        } else {
            0int
        },
{
    lemma_quotient_step(y, 4);
    lemma_quotient_step(y, 100);
    lemma_quotient_step(y, 400);
    assert(y % 400 == 0 ==> y % 100 == 0);
    assert(y % 100 == 0 ==> y % 4 == 0);
}

/// The days before a month, written out.
proof fn lemma_days_before_month(y: int)
    ensures
        days_before_month(y, 1) == 0,
        days_before_month(y, 2) == 31,
        ({
            let l: int = if leap(y) {
                1
            } else {
                0
            };
            &&& days_before_month(y, 3) == 59 + l
            &&& days_before_month(y, 4) == 90 + l
            &&& days_before_month(y, 5) == 120 + l
            &&& days_before_month(y, 6) == 151 + l
            &&& days_before_month(y, 7) == 181 + l
            &&& days_before_month(y, 8) == 212 + l
            &&& days_before_month(y, 9) == 243 + l
            &&& days_before_month(y, 10) == 273 + l
            &&& days_before_month(y, 11) == 304 + l
            &&& days_before_month(y, 12) == 334 + l
        }),
{
    reveal_with_fuel(days_before_month, 13);
}

/// The year within a cycle of 400 years that begin in March.
proof fn lemma_year_of_cycle(doe: int, yoe: int)
    requires
        0 <= doe < 146097,
        yoe == (doe - doe / 1460 + doe / 36524 - doe / 146096) / 365,
    ensures
        0 <= yoe < 400,
        365 * yoe + yoe / 4 - yoe / 100 <= doe,
        doe - (365 * yoe + yoe / 4 - yoe / 100) <= 365,
        doe - (365 * yoe + yoe / 4 - yoe / 100) == 365 ==> (yoe + 1) % 4 == 0 && ((yoe + 1) % 100
            != 0 || (yoe + 1) % 400 == 0),
{
}

/// The day of a cycle of 400 years that begin in March, as its month and day.
proof fn lemma_month_of_year(doy: int, mp: int)
    requires
        0 <= doy <= 365,
        mp == (5 * doy + 2) / 153,
    ensures
        0 <= mp <= 11,
        (153 * mp + 2) / 5 <= doy < (153 * (mp + 1) + 2) / 5,
{
}

/// The date of the day `days` after 1970-01-01.
pub fn civil_from_days(days: i64) -> (r: (i64, u32, u32))
    requires
        days <= i64::MAX - 719_468,
    ensures
        is_date(r.0 as int, r.1 as int, r.2 as int),
        days_to(r.0 as int, r.1 as int, r.2 as int) == days,
{
    let z: i64 = days + 719_468;
    let floor: i64 = if z >= 0 {
        z
    } else {
        z - 146_096
    };
    let era: i64 = floor / 146_097;
    let doe: i64 = z - era * 146_097;
    assert(0 <= doe < 146_097);
    let yoe: i64 = (doe - doe / 1460 + doe / 36524 - doe / 146_096) / 365;
    proof {
        lemma_year_of_cycle(doe as int, yoe as int);
    }
    let y: i64 = yoe + era * 400;
    let doy: i64 = doe - (365 * yoe + yoe / 4 - yoe / 100);
    let mp: i64 = (5 * doy + 2) / 153;
    proof {
        lemma_month_of_year(doy as int, mp as int);
    }
    let d: u32 = (doy - (153 * mp + 2) / 5 + 1) as u32;
    let m: u32 = (if mp < 10 {
        mp + 3
    } else {
        mp - 9
    }) as u32;
    let year: i64 = if m <= 2 {
        y + 1
    } else {
        y
    };
    proof {
        lemma_date(era as int, yoe as int, doy as int, mp as int);
    }
    (year, m, d)
}

/// The date of day `doy` of year `yoe` of the cycle `era`, counted from March.
proof fn lemma_date(era: int, yoe: int, doy: int, mp: int)
    requires
        0 <= yoe < 400,
        0 <= doy <= 365,
        doy == 365 ==> (yoe + 1) % 4 == 0 && ((yoe + 1) % 100 != 0 || (yoe + 1) % 400 == 0),
        0 <= mp <= 11,
        (153 * mp + 2) / 5 <= doy < (153 * (mp + 1) + 2) / 5,
    ensures
        ({
            let y = yoe + era * 400;
            let m = if mp < 10 {
                mp + 3
            } else {
                mp - 9
            };
            let d = doy - (153 * mp + 2) / 5 + 1;
            let year = if m <= 2 {
                y + 1
            } else {
                y
            };
            &&& is_date(year, m, d)
            &&& days_to(year, m, d) == era * 146097 + 365 * yoe + yoe / 4 - yoe / 100 + doy - 719468
        }),
{
    let y = yoe + era * 400;
    assert(y / 4 == yoe / 4 + era * 100);
    assert(y / 100 == yoe / 100 + era * 4);
    assert(y / 400 == era);
    lemma_leap_step(y);
    lemma_days_before_month(y);
    lemma_days_before_month(y + 1);
    assert((y + 1) % 4 == (yoe + 1) % 4);
    assert((y + 1) % 100 == (yoe + 1) % 100);
    assert((y + 1) % 400 == (yoe + 1) % 400);
}

/// Later years begin later, by at least 365 days each.
proof fn lemma_years_ascend(a: int, b: int)
    requires
        a <= b,
    ensures
        days_before_year(b) >= days_before_year(a) + 365 * (b - a),
    decreases b - a,
{
    if a < b {
        lemma_years_ascend(a, b - 1);
        lemma_leap_step(b - 1);
    }
}

/// A date lies within its year.
proof fn lemma_within_year(y: int, m: int, d: int)
    requires
        is_date(y, m, d),
    ensures
        0 <= days_before_month(y, m) + d - 1 < days_before_year(y + 1) - days_before_year(y),
{
    lemma_days_before_month(y);
    lemma_leap_step(y);
}

/// No two dates are the same number of days away from 1970-01-01.
pub proof fn law_date_is_unique(y: int, m: int, d: int, y2: int, m2: int, d2: int)
    requires
        is_date(y, m, d),
        is_date(y2, m2, d2),
        days_to(y, m, d) == days_to(y2, m2, d2),
    ensures
        y == y2 && m == m2 && d == d2,
{
    lemma_within_year(y, m, d);
    lemma_within_year(y2, m2, d2);
    if y < y2 {
        lemma_years_ascend(y + 1, y2);
    }
    if y2 < y {
        lemma_years_ascend(y2 + 1, y);
    }
    lemma_days_before_month(y);
}

/// The date of the day `days` after 1970-01-01.
pub open spec fn date_of(days: int) -> (int, int, int) {
    choose|y: int, m: int, d: int|
        is_date(y, m, d) && #[trigger] days_to(y, m, d) == days
}

/// A point in time as `YYYY-MM-DD_HH-MM-SS`.
pub open spec fn stamp_text(date: (int, int, int), hour: nat, minute: nat, second: nat) -> Seq<
    char,
> {
    text::padded(date.0 as nat, 4).push('-') + text::padded(date.1 as nat, 2).push('-')
        + text::padded(date.2 as nat, 2).push('_') + text::padded(hour, 2).push('-')
        + text::padded(minute, 2).push('-') + text::padded(second, 2)
}

/// The UTC time `secs` after the epoch as `YYYY-MM-DD_HH-MM-SS`, fit for file
/// names.
pub fn utc_stamp(secs: u64) -> (r: String)
    ensures
        r@ == stamp_text(
            date_of(secs as int / 86_400),
            (secs as nat % 86_400) / 3600,
            (secs as nat % 3600) / 60,
            secs as nat % 60,
        ),
{
    let hour: u64 = secs % 86_400 / 3600;
    let minute: u64 = secs % 3600 / 60;
    let second: u64 = secs % 60;
    let days: i64 = (secs / 86_400) as i64;
    let (y, m, d) = civil_from_days(days);
    proof {
        let at = date_of(days as int);
        assert(is_date(at.0, at.1, at.2) && days_to(at.0, at.1, at.2) == days);
        law_date_is_unique(y as int, m as int, d as int, at.0, at.1, at.2);
        if y < 1970 {
            lemma_within_year(y as int, m as int, d as int);
            lemma_years_ascend(y + 1, 1970);
        }
    }
    let mut out = String::new();
    push_padded(&mut out, y as u64, 4);
    push_char(&mut out, '-');
    push_padded(&mut out, m as u64, 2);
    push_char(&mut out, '-');
    push_padded(&mut out, d as u64, 2);
    push_char(&mut out, '_');
    push_padded(&mut out, hour, 2);
    push_char(&mut out, '-');
    push_padded(&mut out, minute, 2);
    push_char(&mut out, '-');
    push_padded(&mut out, second, 2);
    assert(out@ =~= stamp_text(
        (y as int, m as int, d as int),
        hour as nat,
        minute as nat,
        second as nat,
    ));
    out
}

} // verus!
