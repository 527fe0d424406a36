//! Calendar dates.

use vstd::arithmetic::div_mod;
use vstd::prelude::*;

use crate::layout;
use crate::layout::push_zero_padded;

verus! {

/// A leap year of the Gregorian calendar.
pub open spec fn is_leap(y: int) -> bool {
    y % 4 == 0 && (y % 100 != 0 || y % 400 == 0)
}

/// The number of days of a month.
pub open spec fn month_len(y: int, m: int) -> int {
    if m == 2 {
        if is_leap(y) {
            29
        } else {
            28
        }
    } else if m == 4 || m == 6 || m == 9 || m == 11 {
        30
    } else {
        31
    }
}

/// The date is one of the calendar.
pub open spec fn is_date(y: int, m: int, d: int) -> bool {
    1 <= m <= 12 && 1 <= d <= month_len(y, m)
}

/// The number of days of year `y` before month `m`.
pub open spec fn days_before_month(y: int, m: int) -> int
    decreases m,
{
    if m <= 1 {
        0
    } else {
        days_before_month(y, m - 1) + month_len(y, m - 1)
    }
}

/// The number of days from the start of year 1 to the start of year `y`.
pub open spec fn days_before_year(y: int) -> int {
    365 * (y - 1) + (y - 1) / 4 - (y - 1) / 100 + (y - 1) / 400
}

/// The number of a date: days since 1970-01-01.
pub open spec fn day_number(y: int, m: int, d: int) -> int {
    days_before_year(y) + days_before_month(y, m) + d - 1 - 719162
}

/// A date as `YYYY-MM-DD`.
pub open spec fn iso_text(y: int, m: int, d: int) -> Seq<char> {
    layout::zero_padded(y, 4) + seq!['-'] + layout::zero_padded(m, 2) + seq!['-']
        + layout::zero_padded(d, 2)
}

/// The date has the number `days`.
pub open spec fn has_number(date: (int, int, int), days: int) -> bool {
    is_date(date.0, date.1, date.2) && day_number(date.0, date.1, date.2) == days
}

/// The date whose number is `days`. Every number has one (`lemma_calendar`), and
/// only one (`lemma_date_unique`).
pub open spec fn calendar(days: int) -> (int, int, int) {
    choose|date: (int, int, int)| has_number(date, days)
}

/// The date whose number is `days`, as `YYYY-MM-DD`.
pub open spec fn iso_date(days: int) -> Seq<char> {
    iso_text(calendar(days).0, calendar(days).1, calendar(days).2)
}

/// A year is as long as its months together, and the next year starts right after
/// it.
pub proof fn lemma_year_len(y: int)
    ensures
        days_before_year(y + 1) == days_before_year(y) + days_before_month(y, 13),
        days_before_month(y, 13) == if is_leap(y) {
            366int
        } else {
            365
        },
{
    lemma_months(y);
    lemma_step(y, 4);
    lemma_step(y, 100);
    lemma_step(y, 400);
    if y % 400 == 0 {
        lemma_multiple(y, 100, 4);
    }
    if y % 100 == 0 {
        lemma_multiple(y, 4, 25);
    }
}

/// A multiple of a number is passed in the step to it.
proof fn lemma_step(y: int, k: int)
    requires
        k > 0,
    ensures
        y / k - (y - 1) / k == if y % k == 0 {
            1int
        } else {
            0
        },
{
    let q = y / k;
    let r = y % k;
    div_mod::lemma_fundamental_div_mod(y, k);
    if r == 0 {
        assert(y - 1 == (q - 1) * k + (k - 1)) by (nonlinear_arith)
            requires
                y == k * q + r,
                r == 0,
        ;
        div_mod::lemma_fundamental_div_mod_converse(y - 1, k, q - 1, k - 1);
    } else {
        assert(y - 1 == q * k + (r - 1)) by (nonlinear_arith)
            requires
                y == k * q + r,
        ;
        div_mod::lemma_fundamental_div_mod_converse(y - 1, k, q, r - 1);
    }
}

/// A multiple of a multiple is a multiple.
proof fn lemma_multiple(y: int, k: int, n: int)
    requires
        k > 0,
        n > 0,
        y % (k * n) == 0,
        k * n > 0,
    ensures
        y % k == 0,
{
    let q = y / (k * n);
    div_mod::lemma_fundamental_div_mod(y, k * n);
    assert(y == (n * q) * k + 0) by (nonlinear_arith)
        requires
            y == (k * n) * q,
    ;
    div_mod::lemma_fundamental_div_mod_converse(y, k, n * q, 0);
}

proof fn lemma_months(y: int)
    ensures
        days_before_month(y, 1) == 0,
        days_before_month(y, 2) == 31,
        days_before_month(y, 3) == 31 + month_len(y, 2),
        days_before_month(y, 4) == 62 + month_len(y, 2),
        days_before_month(y, 5) == 92 + month_len(y, 2),
        days_before_month(y, 6) == 123 + month_len(y, 2),
        days_before_month(y, 7) == 153 + month_len(y, 2),
        days_before_month(y, 8) == 184 + month_len(y, 2),
        days_before_month(y, 9) == 215 + month_len(y, 2),
        days_before_month(y, 10) == 245 + month_len(y, 2),
        days_before_month(y, 11) == 276 + month_len(y, 2),
        days_before_month(y, 12) == 306 + month_len(y, 2),
        days_before_month(y, 13) == 337 + month_len(y, 2),
{
    reveal_with_fuel(days_before_month, 14);
}

/// Years come in order of their first days.
proof fn lemma_year_order(a: int, b: int)
    requires
        a < b,
    ensures
        days_before_year(a) + days_before_month(a, 13) <= days_before_year(b),
{
    lemma_year_len(a);
    lemma_months(a);
}

proof fn lemma_date_in_year(y: int, m: int, d: int)
    requires
        is_date(y, m, d),
    ensures
        0 <= days_before_month(y, m) + d - 1 < days_before_month(y, 13),
{
    lemma_months(y);
}

/// No two dates have the same number.
pub proof fn lemma_date_unique(y: int, m: int, d: int, y2: int, m2: int, d2: int)
    requires
        is_date(y, m, d),
        is_date(y2, m2, d2),
        day_number(y, m, d) == day_number(y2, m2, d2),
    ensures
        y == y2 && m == m2 && d == d2,
{
    lemma_date_in_year(y, m, d);
    lemma_date_in_year(y2, m2, d2);
    if y < y2 {
        lemma_year_order(y, y2);
    }
    if y2 < y {
        lemma_year_order(y2, y);
    }
    lemma_months(y);
}

/// The day after a date has the next number.
pub proof fn lemma_next_day(y: int, m: int, d: int)
    requires
        is_date(y, m, d),
    ensures
        d < month_len(y, m) ==> day_number(y, m, d + 1) == day_number(y, m, d) + 1,
        d == month_len(y, m) && m < 12 ==> day_number(y, m + 1, 1) == day_number(y, m, d) + 1,
        d == month_len(y, m) && m == 12 ==> day_number(y + 1, 1, 1) == day_number(y, m, d) + 1,
        day_number(1970, 1, 1) == 0,
{
    lemma_months(y);
    lemma_months(1970);
    lemma_months(y + 1);
    lemma_year_len(y);
}

/// The year that lies `c` centuries, `q` quadrennia and `r` years into cycle `era`
/// of 400 years.
spec fn cycle_year(era: int, c: int, q: int, r: int) -> int {
    400 * era + 100 * c + 4 * q + r
}

proof fn lemma_cycle_year(era: int, c: int, q: int, r: int)
    requires
        0 <= c <= 3,
        0 <= q <= 24,
        0 <= r <= 3,
    ensures
        days_before_year(cycle_year(era, c, q, r) + 1) == 146097 * era + 36524 * c + 1461 * q + 365
            * r,
{
    let y = cycle_year(era, c, q, r);
    div_mod::lemma_fundamental_div_mod_converse(y, 4, 100 * era + 25 * c + q, r);
    div_mod::lemma_fundamental_div_mod_converse(y, 100, 4 * era + c, 4 * q + r);
    div_mod::lemma_fundamental_div_mod_converse(y, 400, era, 100 * c + 4 * q + r);
}

/// Only the year after the last of a quadrennium is a leap year, and if that ends a
/// century, only when it ends the cycle.
proof fn lemma_cycle_leap(era: int, c: int, q: int)
    requires
        0 <= c <= 3,
        0 <= q <= 24,
        q < 24 || c == 3,
    ensures
        is_leap(cycle_year(era, c, q, 3) + 1),
{
    let y = cycle_year(era, c, q, 3) + 1;
    div_mod::lemma_fundamental_div_mod_converse(y, 4, 100 * era + 25 * c + q + 1, 0);
    if q < 24 {
        div_mod::lemma_fundamental_div_mod_converse(y, 100, 4 * era + c, 4 * q + 4);
    } else {
        div_mod::lemma_fundamental_div_mod_converse(y, 400, era + 1, 0);
    }
}

/// March 1st of a year comes 306 days before the next year.
proof fn lemma_march(y: int, m: int, d: int)
    requires
        3 <= m <= 12,
    ensures
        day_number(y, m, d) == days_before_year(y + 1) + days_before_month(y, m) - month_len(y, 2)
            - 337 + d - 1 - 719162,
{
    lemma_year_len(y);
    lemma_months(y);
}

/// The date of a day of a 400-year cycle that starts on March 1st of its year 0:
/// `c` centuries, `q` quadrennia and `r` years precede day `doy` of the year.
proof fn lemma_cycle(era: int, c: int, q: int, r: int, doy: int, y: int, m: int, d: int)
    requires
        0 <= c <= 3,
        0 <= q <= 24,
        0 <= r <= 3,
        0 <= doy <= 365,
        doy == 365 ==> r == 3 && (q < 24 || c == 3),
        m <= 2 ==> y == cycle_year(era, c, q, r) + 1,
        m > 2 ==> y == cycle_year(era, c, q, r),
        is_march_day(doy, m, d),
    ensures
        is_date(y, m, d),
        day_number(y, m, d) == 146097 * era + 36524 * c + 1461 * q + 365 * r + doy - 719468,
{
    lemma_cycle_year(era, c, q, r);
    lemma_months(y);
    if m > 2 {
        lemma_march(y, m, d);
    }
    if doy == 365 {
        lemma_cycle_leap(era, c, q);
    }
}

/// Day `doy` of a year that starts on March 1st is the `d`-th of month `m`.
spec fn is_march_day(doy: int, m: int, d: int) -> bool {
    &&& d >= 1
    &&& {
        ||| m == 3 && doy == d - 1 && d <= 31
        ||| m == 4 && doy == d + 30 && d <= 30
        ||| m == 5 && doy == d + 60 && d <= 31
        ||| m == 6 && doy == d + 91 && d <= 30
        ||| m == 7 && doy == d + 121 && d <= 31
        ||| m == 8 && doy == d + 152 && d <= 31
        ||| m == 9 && doy == d + 183 && d <= 30
        ||| m == 10 && doy == d + 213 && d <= 31
        ||| m == 11 && doy == d + 244 && d <= 30
        ||| m == 12 && doy == d + 274 && d <= 31
        ||| m == 1 && doy == d + 305 && d <= 31
        ||| m == 2 && doy == d + 336 && d <= 29
    }
}

/// Every number is the number of a date.
pub proof fn lemma_calendar(days: int)
    ensures
        has_number(calendar(days), days),
{
    let z = days + 719468;
    let era = z / 146097;
    let doe = z - era * 146097;
    let c = if doe == 146096 {
        3
    } else {
        doe / 36524
    };
    let doc = doe - 36524 * c;
    let q = doc / 1461;
    let doq = doc - 1461 * q;
    let r = if doq == 1460 {
        3
    } else {
        doq / 365
    };
    let doy = doq - 365 * r;
    let mp = (5 * doy + 2) / 153;
    let d = doy - (153 * mp + 2) / 5 + 1;
    let m = if mp < 10 {
        mp + 3
    } else {
        mp - 9
    };
    assert(is_march_day(doy, m, d));
    let march_year = cycle_year(era, c, q, r);
    let y = if m <= 2 {
        march_year + 1
    } else {
        march_year
    };
    lemma_cycle(era, c, q, r, doy, y, m, d);
    assert(has_number((y, m, d), days));
}

/// The calendar date of a number of days since 1970-01-01, as `YYYY-MM-DD`.
pub fn iso_date_from_unix_days(days: i64) -> (text: String)
    requires
        days <= i64::MAX - 719_468,
    ensures
        text@ == iso_date(days as int),
{
    // Days since March 1st of year 0, in cycles of 400 years.
    let z: i64 = days + 719_468;
    let era: i64 = if z >= 0 {
        z / 146_097
    } else {
        -1 - (-1 - z) / 146_097
    };
    let doe: i64 = z - era * 146_097;
    assert(0 <= doe < 146_097);
    // The last century of a cycle and the last year of a quadrennium can be a
    // day longer than the others.
    let c: i64 = if doe == 146_096 {
        3
    } else {
        doe / 36_524
    };
    let doc: i64 = doe - 36_524 * c;
    let q: i64 = doc / 1_461;
    let doq: i64 = doc - 1_461 * q;
    let r: i64 = if doq == 1_460 {
        3
    } else {
        doq / 365
    };
    let doy: i64 = doq - 365 * r;
    let mp: i64 = (5 * doy + 2) / 153;
    let d: i64 = doy - (153 * mp + 2) / 5 + 1;
    let m: i64 = if mp < 10 {
        mp + 3
    } else {
        mp - 9
    };
    assert(is_march_day(doy as int, m as int, d as int));
    let march_year: i64 = 400 * era + 100 * c + 4 * q + r;
    let y: i64 = if m <= 2 {
        march_year + 1
    } else {
        march_year
    };
    proof {
        lemma_cycle(
            era as int,
            c as int,
            q as int,
            r as int,
            doy as int,
            y as int,
            m as int,
            d as int,
        );
    }
    let mut text = String::new();
    push_zero_padded(&mut text, y, 4);
    text.push('-');
    push_zero_padded(&mut text, m, 2);
    text.push('-');
    push_zero_padded(&mut text, d, 2);
    assert(text@ =~= iso_text(y as int, m as int, d as int));
    proof {
        lemma_calendar(days as int);
        let date = calendar(days as int);
        lemma_date_unique(y as int, m as int, d as int, date.0, date.1, date.2);
    }
    text
}

/// The calendar goes on day by day: day 0 is the first of January 1970, and every day is
/// followed by the next of its month, or by the first of the next month, or by the first
/// of the next year. April, June, September and November have 30 days; February has 28,
/// and 29 in years that 4 divides, but not 100, unless 400 does; the others have 31.
pub proof fn lemma_day_by_day(days: int)
    ensures
        calendar(0) == (1970int, 1int, 1int),
        ({
            let (y, m, d) = calendar(days);
            let last: int = if m == 4 || m == 6 || m == 9 || m == 11 {
                30
            } else if m != 2 {
                31
            } else if y % 4 == 0 && (y % 100 != 0 || y % 400 == 0) {
                29
            } else {
                28
            };
            &&& 1 <= m <= 12
            &&& 1 <= d <= last
            &&& calendar(days + 1) == if d < last {
                (y, m, d + 1)
            } else if m < 12 {
                (y, m + 1, 1int)
            } else {
                (y + 1, 1int, 1int)
            }
        }),
{
    lemma_calendar(0);
    lemma_calendar(days);
    lemma_calendar(days + 1);
    let (y, m, d) = calendar(days);
    lemma_next_day(y, m, d);
    let zero = calendar(0);
    lemma_date_unique(1970, 1, 1, zero.0, zero.1, zero.2);
    let next = calendar(days + 1);
    if d < month_len(y, m) {
        lemma_date_unique(y, m, d + 1, next.0, next.1, next.2);
    } else if m < 12 {
        lemma_date_unique(y, m + 1, 1, next.0, next.1, next.2);
    } else {
        lemma_date_unique(y + 1, 1, 1, next.0, next.1, next.2);
    }
}

/// A date is shown as year, month and day, with dashes between them; in the years 0 to
/// 9999 it is ten characters long, four for the year and two each for the month and the
/// day. What is shown says the date.
pub proof fn lemma_date_reads_back(days: int)
    requires
        0 <= calendar(days).0 <= 9999,
    ensures
        iso_date(days).len() == 10,
        iso_date(days)[4] == '-' && iso_date(days)[7] == '-',
        layout::number_of(iso_date(days).subrange(0, 4)) == calendar(days).0,
        layout::number_of(iso_date(days).subrange(5, 7)) == calendar(days).1,
        layout::number_of(iso_date(days).subrange(8, 10)) == calendar(days).2,
{
    lemma_calendar(days);
    let (y, m, d) = calendar(days);
    layout::lemma_zero_padding(y as nat, 4);
    layout::lemma_zero_padding(m as nat, 2);
    layout::lemma_zero_padding(d as nat, 2);
    layout::lemma_digit_count(y as nat);
    layout::lemma_digit_count(m as nat);
    layout::lemma_digit_count(d as nat);
    let s = iso_date(days);
    assert(s.subrange(0, 4) =~= layout::zero_padded(y, 4));
    assert(s.subrange(5, 7) =~= layout::zero_padded(m, 2));
    assert(s.subrange(8, 10) =~= layout::zero_padded(d, 2));
}

/// A date is made of digits and dashes.
pub proof fn lemma_date_chars(days: int, i: int)
    requires
        0 <= i < iso_date(days).len(),
    ensures
        '0' <= iso_date(days)[i] <= '9' || iso_date(days)[i] == '-',
{
    let (y, m, d) = calendar(days);
    layout::lemma_zero_padded_chars(y, 4);
    layout::lemma_zero_padded_chars(m, 2);
    layout::lemma_zero_padded_chars(d, 2);
}

/// In any year, a date is shown as its year with four digits or more, its month and its
/// day with two, and dashes between them.
pub proof fn lemma_date_text(days: int)
    ensures
        iso_date(days) == layout::zero_padded(calendar(days).0, 4) + seq!['-']
            + layout::zero_padded(calendar(days).1, 2) + seq!['-'] + layout::zero_padded(
            calendar(days).2,
            2,
        ),
{
}

} // verus!
