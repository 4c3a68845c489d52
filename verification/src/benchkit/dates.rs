//! What the calendar promises of dates and stamps.
use super::calendar;
use crate::text;
use vstd::prelude::*;

verus! {

/// Days are counted from the first of January 1970. A year has 366 days if its number
/// is a multiple of 4 but not of 100, or of 400, and else 365; January begins it.
pub proof fn law_years_follow_the_leap_rule(y: int)
    ensures
        calendar::days_to(1970, 1, 1) == 0,
        calendar::days_to(y + 1, 1, 1) - calendar::days_to(y, 1, 1) == if y % 400 == 0 {
            366int
        } else if y % 100 == 0 {
            365
        } else if y % 4 == 0 {
            366
        } else {
            365
        },
{
    reveal_with_fuel(calendar::days_before_month, 2);
    lemma_quotient_step(y, 4);
    lemma_quotient_step(y, 100);
    lemma_quotient_step(y, 400);
    lemma_multiples(y);
    assert(calendar::days_before_year(1970) == 719162);
}

/// A quotient grows by one at the multiples of the divisor.
proof fn lemma_quotient_step(y: int, n: int)
    requires
        n > 1,
    ensures
        y / n - (y - 1) / n == if y % n == 0 {
            1int
        } else {
            0
        },
{
    let q = (y - 1) / n;
    let r = (y - 1) % n;
    vstd::arithmetic::div_mod::lemma_fundamental_div_mod(y - 1, n);
    vstd::arithmetic::div_mod::lemma_mod_bound(y - 1, n);
    assert(q * n == n * q) by (nonlinear_arith);
    if r + 1 == n {
        assert((q + 1) * n == n * q + n) by (nonlinear_arith);
        vstd::arithmetic::div_mod::lemma_fundamental_div_mod_converse(y, n, q + 1, 0);
    } else {
        vstd::arithmetic::div_mod::lemma_fundamental_div_mod_converse(y, n, q, r + 1);
    }
}

/// Multiples of 400 are multiples of 100, and these are multiples of 4.
proof fn lemma_multiples(y: int)
    ensures
        y % 400 == 0 ==> y % 100 == 0,
        y % 100 == 0 ==> y % 4 == 0,
{
}

/// The months follow each other with 31, 28 or 29, 31, 30, 31, 30, 31, 31, 30, 31, 30
/// and 31 days, and the days of a month without a gap. After December comes January.
pub proof fn law_months_follow_each_other(y: int, m: int, d: int)
    requires
        1 <= m <= 12,
    ensures
        calendar::days_to(y, m, d + 1) == calendar::days_to(y, m, d) + 1,
        m < 12 ==> {
            let len = calendar::days_to(y, m + 1, 1) - calendar::days_to(y, m, 1);
            &&& m == 1 || m == 3 || m == 5 || m == 7 || m == 8 || m == 10 ==> len == 31
            &&& m == 4 || m == 6 || m == 9 || m == 11 ==> len == 30
            &&& m == 2 ==> len == calendar::days_to(y + 1, 1, 1) - calendar::days_to(y, 1, 1) - 337
        },
        calendar::days_to(y + 1, 1, 1) == calendar::days_to(y, 12, 31) + 1,
        calendar::is_date(y, m, d) <==> 1 <= d && (m < 12 ==> calendar::days_to(y, m, d) < calendar::days_to(y, m + 1, 1)) && (m
            == 12 ==> d <= 31),
{
    law_years_follow_the_leap_rule(y);
    reveal_with_fuel(calendar::days_before_month, 13);
    assert(calendar::days_before_month(y + 1, 1) == 0);
    assert(calendar::leap(y) <==> (y % 400 == 0 || (y % 100 != 0 && y % 4 == 0)));
}

proof fn lemma_short_decimal(n: nat)
    ensures
        n < 100 ==> text::decimal(n).len() <= 2,
        n < 10000 ==> text::decimal(n).len() <= 4,
{
    reveal_with_fuel(text::decimal, 5);
}

/// A stamp has nineteen characters in years of up to four digits: year, month and day
/// with hyphens between them, an underscore, and hour, minute and second with hyphens
/// between them. Each part reads as its number.
pub proof fn law_stamp_reads_back(
    date: (int, int, int),
    hour: nat,
    minute: nat,
    second: nat,
)
    requires
        0 <= date.0 < 10000,
        calendar::is_date(date.0, date.1, date.2),
        hour < 24,
        minute < 60,
        second < 60,
    ensures
        ({
            let s = calendar::stamp_text(date, hour, minute, second);
            &&& s.len() == 19
            &&& s[4] == '-' && s[7] == '-' && s[10] == '_' && s[13] == '-' && s[16] == '-'
            &&& text::number(s.subrange(0, 4), 9999) == Some(date.0 as nat)
            &&& text::number(s.subrange(5, 7), 99) == Some(date.1 as nat)
            &&& text::number(s.subrange(8, 10), 99) == Some(date.2 as nat)
            &&& text::number(s.subrange(11, 13), 99) == Some(hour)
            &&& text::number(s.subrange(14, 16), 99) == Some(minute)
            &&& text::number(s.subrange(17, 19), 99) == Some(second)
        }),
{
    lemma_short_decimal(date.0 as nat);
    lemma_short_decimal(date.1 as nat);
    lemma_short_decimal(date.2 as nat);
    lemma_short_decimal(hour);
    lemma_short_decimal(minute);
    lemma_short_decimal(second);
    text::law_padded_number_reads_back(date.0 as nat, 4, 9999);
    text::law_padded_number_reads_back(date.1 as nat, 2, 99);
    text::law_padded_number_reads_back(date.2 as nat, 2, 99);
    text::law_padded_number_reads_back(hour, 2, 99);
    text::law_padded_number_reads_back(minute, 2, 99);
    text::law_padded_number_reads_back(second, 2, 99);
    let s = calendar::stamp_text(date, hour, minute, second);
    assert(s.subrange(0, 4) =~= text::padded(date.0 as nat, 4));
    assert(s.subrange(5, 7) =~= text::padded(date.1 as nat, 2));
    assert(s.subrange(8, 10) =~= text::padded(date.2 as nat, 2));
    assert(s.subrange(11, 13) =~= text::padded(hour, 2));
    assert(s.subrange(14, 16) =~= text::padded(minute, 2));
    assert(s.subrange(17, 19) =~= text::padded(second, 2));
}

} // verus!
