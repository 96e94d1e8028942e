//! The proleptic Gregorian calendar, counted in days from 1970-01-01.
use vstd::prelude::*;

use vstd::arithmetic::div_mod::lemma_fundamental_div_mod_converse;

verus! {

pub open spec fn is_leap(y: int) -> bool {
    (y % 4 == 0 && y % 100 != 0) || y % 400 == 0
}

pub open spec fn year_len(y: int) -> int {
    if is_leap(y) {
        366
    } else {
        365
    }
}

/// Days in month `m` (1 = January) of year `y`.
pub open spec fn month_len(y: int, m: int) -> int {
    if m == 2 {
        if is_leap(y) {
            29
        } else {
            28
        }
    } else if m == 4 || m == 6 || m == 9 || m == 11 {
        30
    } else {
        31
    }
}

/// Days of year `y` before the first of month `m`.
pub open spec fn days_before_month(y: int, m: int) -> int
    decreases m,
{
    if m <= 1 {
        0
    } else {
        days_before_month(y, m - 1) + month_len(y, m - 1)
    }
}

/// Leap years in 1..=n for n >= 0; for n < 0, minus the leap years in
/// n+1..=0.
pub open spec fn leaps_through(n: int) -> int {
    n / 4 - n / 100 + n / 400
}

/// Days from 1970-01-01 to the first of January of year `y` (negative for
/// years before 1970).
pub open spec fn days_before_year(y: int) -> int {
    365 * (y - 1970) + leaps_through(y - 1) - leaps_through(1969)
}

pub open spec fn valid_date(y: int, m: int, d: int) -> bool {
    &&& 1 <= m <= 12
    &&& 1 <= d <= month_len(y, m)
}

/// Days from 1970-01-01 to the date `y-m-d` (negative before 1970).
pub open spec fn days_since_epoch(y: int, m: int, d: int) -> int {
    days_before_year(y) + days_before_month(y, m) + d - 1
}

/// The calendar date `days` days after 1970-01-01 (before it when `days` is
/// negative).
pub open spec fn date_of(days: int) -> (int, int, int) {
    choose|ymd: (int, int, int)|
        valid_date(ymd.0, ymd.1, ymd.2) && days_since_epoch(ymd.0, ymd.1, ymd.2) == days
}

proof fn lemma_div_step(y: int, d: int)
    requires
        d > 0,
    ensures
        y / d - (y - 1) / d == (if y % d == 0 {
            1int
        } else {
            0int
        }),
{
    let q = (y - 1) / d;
    let r = (y - 1) % d;
    assert(y - 1 == q * d + r) by {
        vstd::arithmetic::div_mod::lemma_fundamental_div_mod(y - 1, d);
    }
    if r + 1 < d {
        lemma_fundamental_div_mod_converse(y, d, q, r + 1);
    } else {
        assert(y == (q + 1) * d + 0) by (nonlinear_arith)
            requires
                y - 1 == q * d + r,
                r + 1 == d,
        ;
        lemma_fundamental_div_mod_converse(y, d, q + 1, 0);
    }
}

proof fn lemma_leap_divisors(y: int)
    ensures
        y % 400 == 0 ==> y % 100 == 0,
        y % 100 == 0 ==> y % 4 == 0,
{
    if y % 400 == 0 {
        let q = y / 400;
        vstd::arithmetic::div_mod::lemma_fundamental_div_mod(y, 400);
        lemma_fundamental_div_mod_converse(y, 100, q * 4, 0);
    }
    if y % 100 == 0 {
        let q = y / 100;
        vstd::arithmetic::div_mod::lemma_fundamental_div_mod(y, 100);
        lemma_fundamental_div_mod_converse(y, 4, q * 25, 0);
    }
}

/// Consecutive years are `year_len` days apart.
pub proof fn lemma_year_step(y: int)
    ensures
        days_before_year(y + 1) == days_before_year(y) + year_len(y),
{
    lemma_div_step(y, 4);
    lemma_div_step(y, 100);
    lemma_div_step(y, 400);
    lemma_leap_divisors(y);
}

/// Every 400 years hold 146097 days.
pub proof fn lemma_era(k: int)
    ensures
        days_before_year(1970 + 400 * k) == 146097 * k,
{
    lemma_fundamental_div_mod_converse(1969 + 400 * k, 4, 492 + 100 * k, 1);
    lemma_fundamental_div_mod_converse(1969 + 400 * k, 100, 19 + 4 * k, 69);
    lemma_fundamental_div_mod_converse(1969 + 400 * k, 400, 4 + k, 369);
    lemma_fundamental_div_mod_converse(1969, 4, 492, 1);
    lemma_fundamental_div_mod_converse(1969, 100, 19, 69);
    lemma_fundamental_div_mod_converse(1969, 400, 4, 369);
}

pub proof fn lemma_months_fill_year(y: int)
    ensures
        days_before_month(y, 13) == year_len(y),
        forall|m: int| 1 <= m <= 12 ==> days_before_month(y, m) + month_len(y, m) == #[trigger] days_before_month(y, m + 1),
        forall|m: int| 1 <= m <= 12 ==> 0 <= #[trigger] days_before_month(y, m),
{
    reveal_with_fuel(days_before_month, 13);
}

proof fn lemma_days_before_year_mono(a: int, b: int)
    requires
        a < b,
    ensures
        days_before_year(a) + year_len(a) <= days_before_year(b),
    decreases b - a,
{
    lemma_year_step(a);
    if a + 1 < b {
        lemma_days_before_year_mono(a + 1, b);
        lemma_year_step(a + 1);
    }
}

proof fn lemma_days_before_month_mono(y: int, a: int, b: int)
    requires
        1 <= a < b <= 13,
    ensures
        days_before_month(y, a) + month_len(y, a) <= days_before_month(y, b),
    decreases b - a,
{
    lemma_months_fill_year(y);
    if a + 1 < b {
        lemma_days_before_month_mono(y, a + 1, b);
    }
}

proof fn lemma_date_in_year(y: int, m: int, d: int)
    requires
        valid_date(y, m, d),
    ensures
        days_before_year(y) <= days_since_epoch(y, m, d) < days_before_year(y) + year_len(y),
{
    lemma_months_fill_year(y);
    if m < 12 {
        lemma_days_before_month_mono(y, m, 13);
    }
}

/// A day count names at most one valid date.
pub proof fn lemma_date_unique(y1: int, m1: int, d1: int, y2: int, m2: int, d2: int)
    requires
        valid_date(y1, m1, d1),
        valid_date(y2, m2, d2),
        days_since_epoch(y1, m1, d1) == days_since_epoch(y2, m2, d2),
    ensures
        y1 == y2 && m1 == m2 && d1 == d2,
{
    lemma_date_in_year(y1, m1, d1);
    lemma_date_in_year(y2, m2, d2);
    if y1 < y2 {
        lemma_days_before_year_mono(y1, y2);
    } else if y2 < y1 {
        lemma_days_before_year_mono(y2, y1);
    }
    assert(y1 == y2);
    if m1 < m2 {
        lemma_days_before_month_mono(y1, m1, m2);
    } else if m2 < m1 {
        lemma_days_before_month_mono(y1, m2, m1);
    }
}

/// The year holding day `n` (n >= 0).
proof fn lemma_year_of(n: int) -> (y: int)
    requires
        n >= 0,
    ensures
        y >= 1970,
        days_before_year(y) <= n < days_before_year(y) + year_len(y),
    decreases n,
{
    lemma_era(0);
    if n == 0 {
        1970
    } else {
        let y = lemma_year_of(n - 1);
        if n < days_before_year(y) + year_len(y) {
            y
        } else {
            lemma_year_step(y);
            y + 1
        }
    }
}

/// The month of year `y` holding day `r` of that year, searching from `m`.
proof fn lemma_month_from(y: int, r: int, m: int) -> (k: int)
    requires
        1 <= m <= 12,
        days_before_month(y, m) <= r < year_len(y),
    ensures
        m <= k <= 12,
        days_before_month(y, k) <= r < days_before_month(y, k) + month_len(y, k),
    decreases 12 - m,
{
    lemma_months_fill_year(y);
    if r < days_before_month(y, m) + month_len(y, m) {
        m
    } else {
        assert(days_before_month(y, m + 1) == days_before_month(y, m) + month_len(y, m));
        if m == 12 {
            assert(false);
        }
        lemma_month_from(y, r, m + 1)
    }
}

/// Every day from the epoch on has its date, in 1970 or later.
pub proof fn lemma_date_of(d: int)
    requires
        d >= 0,
    ensures
        valid_date(date_of(d).0, date_of(d).1, date_of(d).2),
        days_since_epoch(date_of(d).0, date_of(d).1, date_of(d).2) == d,
        date_of(d).0 >= 1970,
{
    let y = lemma_year_of(d);
    let r = d - days_before_year(y);
    lemma_months_fill_year(y);
    let m = lemma_month_from(y, r, 1);
    let day = r - days_before_month(y, m) + 1;
    let t = (y, m, day);
    assert(valid_date(t.0, t.1, t.2) && days_since_epoch(t.0, t.1, t.2) == d);
    let w = date_of(d);
    assert(valid_date(w.0, w.1, w.2) && days_since_epoch(w.0, w.1, w.2) == d);
    lemma_date_unique(y, m, day, w.0, w.1, w.2);
}

/// Later days have later or equal dates, in (year, month, day) order; equal
/// dates are the same day.
pub proof fn lemma_date_order(d1: int, d2: int)
    requires
        0 <= d1 <= d2,
    ensures
        ({
            let a = date_of(d1);
            let b = date_of(d2);
            &&& a.0 < b.0 || (a.0 == b.0 && (a.1 < b.1 || (a.1 == b.1 && a.2 <= b.2)))
            &&& a == b ==> d1 == d2
        }),
{
    lemma_date_of(d1);
    lemma_date_of(d2);
    let a = date_of(d1);
    let b = date_of(d2);
    lemma_date_in_year(a.0, a.1, a.2);
    lemma_date_in_year(b.0, b.1, b.2);
    if b.0 < a.0 {
        lemma_days_before_year_mono(b.0, a.0);
    } else if b.0 == a.0 && b.1 < a.1 {
        lemma_days_before_month_mono(a.0, b.1, a.1);
        lemma_months_fill_year(a.0);
    }
}

/// 10000-01-01 is day 2932897.
pub proof fn lemma_days_before_10000()
    ensures
        days_before_year(10000) == 2932897,
{
    lemma_fundamental_div_mod_converse(9999, 4, 2499, 3);
    lemma_fundamental_div_mod_converse(9999, 100, 99, 99);
    lemma_fundamental_div_mod_converse(9999, 400, 24, 399);
    lemma_fundamental_div_mod_converse(1969, 4, 492, 1);
    lemma_fundamental_div_mod_converse(1969, 100, 19, 69);
    lemma_fundamental_div_mod_converse(1969, 400, 4, 369);
}

/// Days before 10000-01-01 have four-digit years.
pub proof fn lemma_date_before_10000(d: int)
    requires
        0 <= d < days_before_year(10000),
    ensures
        date_of(d).0 < 10000,
{
    lemma_date_of(d);
    let a = date_of(d);
    lemma_date_in_year(a.0, a.1, a.2);
    if a.0 > 10000 {
        lemma_days_before_year_mono(10000, a.0);
    }
}

/// Whether `year` is a leap year (Euclidean remainders, as in the spec).
fn is_leap_year(year: i64) -> (r: bool)
    ensures
        r == is_leap(year as int),
{
    let y: u64 = if year >= 0 {
        year as u64
    } else {
        // The same remainders mod 400 (and so mod 4 and mod 100).
        let n = (-(year + 1)) as u64;
        399 - n % 400
    };
    proof {
        if year < 0 {
            let n = -(year + 1);
            assert((year as int) % 400 == (399 - n % 400) as int) by (nonlinear_arith)
                requires n == -(year + 1), n >= 0;
        }
        assert((year as int) % 4 == (y as int) % 4 && (year as int) % 100 == (y as int) % 100)
            by (nonlinear_arith)
            requires
                (year as int) % 400 == (y as int) % 400,
        ;
    }
    (y % 4 == 0 && y % 100 != 0) || y % 400 == 0
}

/// The date `days` days after 1970-01-01 (before it for negative `days`) as
/// (year, month, day).
pub fn civil_from_days(days: i64) -> (ymd: (i64, u64, u64))
    ensures
        valid_date(ymd.0 as int, ymd.1 as int, ymd.2 as int),
        days_since_epoch(ymd.0 as int, ymd.1 as int, ymd.2 as int) == days,
        ymd.0 as int == date_of(days as int).0,
        ymd.1 as int == date_of(days as int).1,
        ymd.2 as int == date_of(days as int).2,
        days >= 0 ==> ymd.0 >= 1970,
        days < 0 ==> ymd.0 < 1970,
{
    // days == 146097 * era + rem with 0 <= rem < 146097.
    let era: i64;
    let mut rem: u64;
    if days >= 0 {
        let n = days as u64;
        era = (n / 146097) as i64;
        rem = n % 146097;
        assert(days == 146097 * era + rem) by (nonlinear_arith)
            requires
                n == days,
                era == n / 146097,
                rem == n % 146097,
        ;
    } else {
        let n = (-(days + 1)) as u64;
        let q = n / 146097;
        let r = n % 146097;
        assert(q < 0x1_0000_0000_0000) by (nonlinear_arith)
            requires
                q == n / 146097,
                n < 0x8000_0000_0000_0000,
        ;
        era = -((q + 1) as i64);
        rem = 146096 - r;
        assert(days == 146097 * era + rem) by (nonlinear_arith)
            requires
                n == -(days + 1),
                q == n / 146097,
                r == n % 146097,
                era == -(q + 1),
                rem == 146096 - r,
        ;
    }
    assert(-0x1_0000_0000_0000 <= era < 0x1_0000_0000_0000) by (nonlinear_arith)
        requires
            days == 146097 * era + rem,
            0 <= rem < 146097,
            -0x8000_0000_0000_0000 <= days < 0x8000_0000_0000_0000,
    ;
    let mut year: i64 = 1970 + 400 * era;
    proof {
        lemma_era(era as int);
    }
    let ghost base = year;
    let ghost rem0 = rem;
    loop
        invariant
            days_before_year(year as int) + rem == days,
            base <= year <= base + (rem0 - rem),
            base == 1970 + 400 * era,
            rem0 < 146097,
            -0x1_0000_0000_0000 <= era < 0x1_0000_0000_0000,
        ensures
            days_before_year(year as int) + rem == days,
            base <= year <= base + rem0,
            rem < year_len(year as int),
        decreases rem,
    {
        let len: u64 = if is_leap_year(year) {
            366
        } else {
            365
        };
        if rem < len {
            break;
        }
        proof {
            lemma_year_step(year as int);
        }
        rem = rem - len;
        year = year + 1;
    }
    let ghost rem_year = rem;
    proof {
        lemma_months_fill_year(year as int);
    }
    assert(rem < year_len(year as int));
    let mut month: u64 = 1;
    loop
        invariant
            1 <= month <= 12,
            days_before_month(year as int, month as int) + rem == rem_year,
            rem_year < year_len(year as int),
            days_before_month(year as int, 13) == year_len(year as int),
            forall|m: int|
                1 <= m <= 12 ==> days_before_month(year as int, m) + month_len(year as int, m)
                    == #[trigger] days_before_month(year as int, m + 1),
        ensures
            1 <= month <= 12,
            days_before_month(year as int, month as int) + rem == rem_year,
            rem < month_len(year as int, month as int),
        decreases 13 - month,
    {
        let leap = is_leap_year(year);
        let len: u64 = if month == 2 {
            if leap {
                29
            } else {
                28
            }
        } else if month == 4 || month == 6 || month == 9 || month == 11 {
            30
        } else {
            31
        };
        assert(len == month_len(year as int, month as int));
        if rem < len {
            break;
        }
        rem = rem - len;
        if month == 12 {
            assert(false);
        }
        month = month + 1;
    }
    let day = rem + 1;
    proof {
        let y = year as int;
        let m = month as int;
        let d = day as int;
        assert(valid_date(y, m, d));
        assert(days_since_epoch(y, m, d) == days);
        let t = (y, m, d);
        assert(valid_date(t.0, t.1, t.2) && days_since_epoch(t.0, t.1, t.2) == days);
        let w = date_of(days as int);
        assert(valid_date(w.0, w.1, w.2) && days_since_epoch(w.0, w.1, w.2) == days);
        lemma_date_unique(y, m, d, w.0, w.1, w.2);
        if days >= 0 {
            assert(era >= 0) by (nonlinear_arith)
                requires
                    days == 146097 * era + rem0,
                    0 <= rem0 < 146097,
                    days >= 0,
            ;
        } else {
            assert(era < 0) by (nonlinear_arith)
                requires
                    days == 146097 * era + rem0,
                    0 <= rem0 < 146097,
                    days < 0,
            ;
            if y >= 1970 {
                lemma_date_in_year(y, m, d);
                lemma_year_step(1969);
                lemma_era(0);
                if y > 1970 {
                    lemma_days_before_year_mono(1970, y);
                }
                lemma_year_step(1970);
                assert(days_before_year(1970) == 0);
                assert(false);
            }
        }
    }
    (year, month, day)
}

} // verus!
