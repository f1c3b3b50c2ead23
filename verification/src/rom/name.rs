//! The name of a new ROM: the date and time at which it was made.
use vstd::prelude::*;
use vstd::arithmetic::div_mod::{lemma_hoist_over_denominator, lemma_mod_multiples_vanish};
use vstd::string::StringExecFns;
use crate::text::{decimal, padded, push_decimal, push_padded};

verus! {

/// A leap year of the Gregorian calendar.
pub open spec fn is_leap(y: int) -> bool {
    y % 4 == 0 && (y % 100 != 0 || y % 400 == 0)
}

/// Leap years before `y`.
pub open spec fn leaps(y: int) -> int {
    (y - 1) / 4 - (y - 1) / 100 + (y - 1) / 400
}

pub open spec fn month_len(y: int, m: int) -> int {
    if m == 2 {
        if is_leap(y) {
            29
        } else {
            28
        }
    } else if m == 4 || m == 6 || m == 9 || m == 11 {
        30
    } else {
        31
    }
}

/// Days of a year before its month `m`.
pub open spec fn days_before(y: int, m: int) -> int
    decreases m,
{
    if m <= 1 {
        0
    } else {
        days_before(y, m - 1) + month_len(y, m - 1)
    }
}

/// A date of the Gregorian calendar.
pub open spec fn is_date(y: int, m: int, d: int) -> bool {
    1 <= m <= 12 && 1 <= d <= month_len(y, m)
}

/// Days from 1970-01-01 to a date.
pub open spec fn day_number(y: int, m: int, d: int) -> int {
    365 * (y - 1970) + leaps(y) - leaps(1970) + days_before(y, m) + d - 1
}

/// A date of the Gregorian calendar.
#[derive(Debug, Clone, Copy, PartialEq, Eq, Structural)]
pub struct Date {
    pub year: u64,
    pub month: u64,
    pub day: u64,
}

fn leap(y: u64) -> (r: bool)
    ensures
        r == is_leap(y as int),
{
    y % 4 == 0 && (y % 100 != 0 || y % 400 == 0)
}

fn year_length(y: u64) -> (r: u64)
    ensures
        r == (if is_leap(y as int) {
            366int
        } else {
            365
        }),
{
    if leap(y) {
        366
    } else {
        365
    }
}

fn length(y: u64, m: u64) -> (r: u64)
    ensures
        r == month_len(y as int, m as int),
{
    if m == 2 {
        if leap(y) {
            29
        } else {
            28
        }
    } else if m == 4 || m == 6 || m == 9 || m == 11 {
        30
    } else {
        31
    }
}

proof fn lemma_year(y: int)
    ensures
        leaps(y + 1) - leaps(y) == (if is_leap(y) {
            1int
        } else {
            0
        }),
{
}

proof fn lemma_months(y: int)
    ensures
        days_before(y, 13) == (if is_leap(y) {
            366int
        } else {
            365
        }),
{
    reveal_with_fuel(days_before, 14);
}

/// The calendar repeats every 400 years.
proof fn lemma_era(y: int, e: int)
    ensures
        leaps(y + 400 * e) == leaps(y) + 97 * e,
        is_leap(y + 400 * e) == is_leap(y),
{
    lemma_hoist_over_denominator(y - 1, 100 * e, 4);
    lemma_hoist_over_denominator(y - 1, 4 * e, 100);
    lemma_hoist_over_denominator(y - 1, e, 400);
    lemma_mod_multiples_vanish(100 * e, y, 4);
    lemma_mod_multiples_vanish(4 * e, y, 100);
    lemma_mod_multiples_vanish(e, y, 400);
    assert(y - 1 + 100 * e * 4 == y + 400 * e - 1);
    assert(y - 1 + 4 * e * 100 == y + 400 * e - 1);
    assert(4 * (100 * e) + y == y + 400 * e);
    assert(100 * (4 * e) + y == y + 400 * e);
}

/// The date of a day, counted from 1970-01-01.
pub fn date_of(days: u64) -> (r: Date)
    requires
        days <= 0x1000_0000_0000_0000,
    ensures
        is_date(r.year as int, r.month as int, r.day as int),
        day_number(r.year as int, r.month as int, r.day as int) == days,
        1970 <= r.year <= 1970 + days,
{
    // 1970-01-01 starts 400-year eras
    let era: u64 = days / 146097;
    let mut left: u64 = days % 146097;
    let mut k: u64 = 0;
    while left >= year_length(1970 + k)
        invariant
            k <= 400,
            left <= 146096,
            left + 365 * k + leaps(1970 + k) - leaps(1970) == days % 146097,
        decreases left,
    {
        proof {
            lemma_year(1970 + k);
        }
        left = left - year_length(1970 + k);
        k += 1;
    }
    let year: u64 = 1970 + k + 400 * era;
    proof {
        lemma_era(1970 + k, era as int);
        lemma_months(year as int);
    }
    let mut m: u64 = 1;
    let ghost total = left as int;
    while left >= length(year, m)
        invariant
            1 <= m <= 12,
            left + days_before(year as int, m as int) == total,
            total < days_before(year as int, 13),
        decreases left,
    {
        left = left - length(year, m);
        m += 1;
        proof {
            if m == 13 {
                assert(false);
            }
        }
    }
    Date { year, month: m, day: left + 1 }
}

/// A year starts where the one before it ends.
proof fn lemma_year_start(y: int, z: int)
    requires
        y <= z,
    ensures
        365 * y + leaps(y) <= 365 * z + leaps(z),
    decreases z - y,
{
    if y < z {
        lemma_year_start(y, z - 1);
        lemma_year(z - 1);
    }
}

/// A month starts where the one before it ends.
proof fn lemma_month_start(y: int, m: int, n: int)
    requires
        m <= n,
    ensures
        days_before(y, m) <= days_before(y, n),
    decreases n - m,
{
    if m < n {
        lemma_month_start(y, m, n - 1);
    }
}

/// Different dates have different day numbers, and later ones larger ones.
pub proof fn dates_differ(y: int, m: int, d: int, y2: int, m2: int, d2: int)
    requires
        is_date(y, m, d),
        is_date(y2, m2, d2),
        y < y2 || (y == y2 && m < m2) || (y == y2 && m == m2 && d < d2),
    ensures
        day_number(y, m, d) < day_number(y2, m2, d2),
{
    if y < y2 {
        lemma_months(y);
        lemma_month_start(y, m + 1, 13);
        lemma_month_start(y2, 1, m2);
        lemma_year(y);
        lemma_year_start(y + 1, y2);
    } else if m < m2 {
        lemma_month_start(y, m + 1, m2);
    }
}

/// A number with at least four digits.
pub open spec fn four_digits(y: nat) -> Seq<char> {
    if y < 10000 {
        padded(y, 4)
    } else {
        decimal(y)
    }
}

/// The name for a date and a second of that day.
pub open spec fn name_for(y: nat, m: nat, d: nat, rem: nat) -> Seq<char> {
    "NewROM-"@ + four_digits(y) + padded(m, 2) + padded(d, 2) + "-"@ + padded(rem / 3600, 2) + padded(
        rem % 3600 / 60,
        2,
    ) + padded(rem % 60, 2)
}

/// `NewROM-YYYYMMDD-HHMMSS` (UTC) for a time in seconds since 1970.
pub fn rom_name(secs: u64) -> (r: String)
    ensures
        exists|y: nat, m: nat, d: nat|
            #![trigger name_for(y, m, d, (secs % 86400) as nat)]
            is_date(y as int, m as int, d as int) && day_number(y as int, m as int, d as int) == secs
                / 86400 && r@ == name_for(y, m, d, (secs % 86400) as nat),
{
    let rem: u64 = secs % 86400;
    let date: Date = date_of(secs / 86400);
    let mut s: String = "NewROM-".to_string();
    if date.year < 10000 {
        push_padded(&mut s, date.year, 4);
    } else {
        push_decimal(&mut s, date.year);
    }
    push_padded(&mut s, date.month, 2);
    push_padded(&mut s, date.day, 2);
    s.append("-");
    push_padded(&mut s, rem / 3600, 2);
    push_padded(&mut s, rem % 3600 / 60, 2);
    push_padded(&mut s, rem % 60, 2);
    assert(s@ == name_for(
        date.year as nat,
        date.month as nat,
        date.day as nat,
        (secs % 86400) as nat,
    ));
    s
}

} // verus!
