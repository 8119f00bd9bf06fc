//! Calendar dates of Unix timestamps, in the proleptic Gregorian calendar.

use std::time::{SystemTime, UNIX_EPOCH};
use vstd::prelude::*;
use crate::text::{decimal, padded_decimal, string_of, zero_padded};

verus! {

pub open spec fn is_leap(y: int) -> bool {
    y % 4 == 0 && (y % 100 != 0 || y % 400 == 0)
}

pub open spec fn year_days(y: int) -> int {
    if is_leap(y) {
        366
    } else {
        365
    }
}

pub open spec fn month_days(y: int, m: int) -> int {
    if m == 2 {
        if is_leap(y) {
            29
        } else {
            28
        }
    } else if m == 4 || m == 6 || m == 9 || m == 11 {
        30
    } else {
        31
    }
}

/// Days from 1970-01-01 to the first day of year `y`.
pub open spec fn days_before_year(y: int) -> int
    decreases y - 1970,
{
    if y <= 1970 {
        0
    } else {
        days_before_year(y - 1) + year_days(y - 1)
    }
}

/// Days from the first day of year `y` to the first day of month `m`.
pub open spec fn days_before_month(y: int, m: int) -> int
    decreases m,
{
    if m <= 1 {
        0
    } else {
        days_before_month(y, m - 1) + month_days(y, m - 1)
    }
}

/// A date from 1970 on.
pub open spec fn is_date(y: int, m: int, d: int) -> bool {
    y >= 1970 && 1 <= m <= 12 && 1 <= d <= month_days(y, m)
}

/// The number of days from 1970-01-01 to the date.
pub open spec fn day_number(y: int, m: int, d: int) -> int {
    days_before_year(y) + days_before_month(y, m) + d - 1
}

/// `YYYY-MM-DD`, each part zero-padded: `{:04}-{:02}-{:02}`.
pub open spec fn date_text(y: nat, m: nat, d: nat) -> Seq<char> {
    zero_padded(decimal(y), 4) + seq!['-'] + zero_padded(decimal(m), 2) + seq!['-'] + zero_padded(
        decimal(d),
        2,
    )
}

/// `s` is the text of the date with day number `day`.
pub open spec fn is_text_of_day(day: int, s: Seq<char>) -> bool {
    exists|y: int, m: int, d: int|
        is_date(y, m, d) && #[trigger] day_number(y, m, d) == day && s == date_text(
            y as nat,
            m as nat,
            d as nat,
        )
}

/// The day number of the moment `n` days before `now`, stopping at the epoch.
pub open spec fn day_before(now: int, n: int) -> int {
    (if now >= n * 86400 {
        now - n * 86400
    } else {
        0
    }) / 86400
}

/// The number of leap years before year `y` (from year 1 on).
spec fn leaps_before(y: int) -> int {
    (y - 1) / 4 - (y - 1) / 100 + (y - 1) / 400
}

proof fn lemma_leaps_step(y: int)
    requires
        y >= 1,
    ensures
        leaps_before(y + 1) == leaps_before(y) + if is_leap(y) {
            1int
        } else {
            0int
        },
{
    assert(y / 4 == (y - 1) / 4 + if y % 4 == 0 {
        1int
    } else {
        0int
    });
    assert(y / 100 == (y - 1) / 100 + if y % 100 == 0 {
        1int
    } else {
        0int
    });
    assert(y / 400 == (y - 1) / 400 + if y % 400 == 0 {
        1int
    } else {
        0int
    });
    if y % 100 == 0 {
        assert(y % 4 == 0);
    }
    if y % 400 == 0 {
        assert(y % 100 == 0);
    }
}

proof fn lemma_days_before_year_closed(y: int)
    requires
        y >= 1970,
    ensures
        days_before_year(y) == 365 * (y - 1970) + leaps_before(y) - leaps_before(1970),
    decreases y - 1970,
{
    if y > 1970 {
        lemma_days_before_year_closed(y - 1);
        lemma_leaps_step(y - 1);
    }
}

/// Any 400 consecutive years hold 146097 days.
pub proof fn lemma_four_centuries(y: int)
    requires
        y >= 1970,
    ensures
        days_before_year(y + 400) == days_before_year(y) + 146097,
{
    lemma_days_before_year_closed(y);
    lemma_days_before_year_closed(y + 400);
    assert((y + 399) / 4 == (y - 1) / 4 + 100);
    assert((y + 399) / 100 == (y - 1) / 100 + 4);
    assert((y + 399) / 400 == (y - 1) / 400 + 1);
}

proof fn lemma_cycles(k: int)
    requires
        k >= 0,
    ensures
        days_before_year(1970 + 400 * k) == 146097 * k,
    decreases k,
{
    if k > 0 {
        lemma_cycles(k - 1);
        lemma_four_centuries(1970 + 400 * (k - 1));
    }
}

proof fn lemma_year_of_months(y: int)
    ensures
        days_before_month(y, 13) == year_days(y),
{
    reveal_with_fuel(days_before_month, 13);
}

proof fn lemma_months_grow(y: int, a: int, b: int)
    requires
        1 <= a <= b,
    ensures
        days_before_month(y, a) + (b - a) * 28 <= days_before_month(y, b),
    decreases b - a,
{
    if a < b {
        lemma_months_grow(y, a, b - 1);
    }
}

proof fn lemma_years_grow(a: int, b: int)
    requires
        1970 <= a <= b,
    ensures
        days_before_year(a) + (b - a) * 365 <= days_before_year(b),
    decreases b - a,
{
    if a < b {
        lemma_years_grow(a, b - 1);
    }
}

/// A day number names one date only.
pub proof fn lemma_day_number_unique(y1: int, m1: int, d1: int, y2: int, m2: int, d2: int)
    requires
        is_date(y1, m1, d1),
        is_date(y2, m2, d2),
        day_number(y1, m1, d1) == day_number(y2, m2, d2),
    ensures
        y1 == y2 && m1 == m2 && d1 == d2,
{
    lemma_day_in_year(y1, m1, d1);
    lemma_day_in_year(y2, m2, d2);
    if y1 < y2 {
        lemma_years_grow(y1 + 1, y2);
        assert(false);
    } else if y2 < y1 {
        lemma_years_grow(y2 + 1, y1);
        assert(false);
    }
    if m1 < m2 {
        lemma_months_grow(y1, m1 + 1, m2);
        assert(false);
    } else if m2 < m1 {
        lemma_months_grow(y1, m2 + 1, m1);
        assert(false);
    }
}

proof fn lemma_day_in_year(y: int, m: int, d: int)
    requires
        is_date(y, m, d),
    ensures
        0 <= days_before_month(y, m) + d - 1 < year_days(y),
        days_before_year(y + 1) == days_before_year(y) + year_days(y),
{
    lemma_year_of_months(y);
    lemma_months_grow(y, m + 1, 13);
    lemma_months_grow(y, 1, m);
}

fn leap(y: u64) -> (r: bool)
    ensures
        r == is_leap(y as int),
{
    y % 4 == 0 && (y % 100 != 0 || y % 400 == 0)
}

fn days_in_year(y: u64) -> (r: u64)
    ensures
        r == year_days(y as int),
{
    if leap(y) {
        366
    } else {
        365
    }
}

fn days_in_month(y: u64, m: u64) -> (r: u64)
    ensures
        r == month_days(y as int, m as int),
{
    if m == 2 {
        if leap(y) {
            29
        } else {
            28
        }
    } else if m == 4 || m == 6 || m == 9 || m == 11 {
        30
    } else {
        31
    }
}

/// The date that lies `days` days after 1970-01-01.
pub fn civil_from_days(days: u64) -> (r: (u64, u64, u64))
    ensures
        is_date(r.0 as int, r.1 as int, r.2 as int),
        day_number(r.0 as int, r.1 as int, r.2 as int) == days,
{
    let cycles = days / 146097;
    let mut rem = days % 146097;
    let mut y: u64 = 1970 + 400 * cycles;
    proof {
        lemma_cycles(cycles as int);
    }
    while rem >= days_in_year(y)
        invariant
            1970 <= y <= 1970 + 400 * cycles + 400,
            cycles == days / 146097,
            days_before_year(1970 + 400 * cycles) == 146097 * cycles,
            days_before_year(y as int) + rem == days,
            days_before_year(y as int) >= 146097 * cycles,
            rem < 146097,
            days_before_year(y as int) + rem < 146097 * (cycles + 1),
        decreases rem,
    {
        let yd = days_in_year(y);
        assert(days_before_year(y + 1) == days_before_year(y as int) + year_days(y as int));
        if y == 1970 + 400 * cycles + 400 {
            proof {
                lemma_four_centuries(1970 + 400 * cycles);
            }
            assert(false);
        }
        rem = rem - yd;
        y = y + 1;
    }
    let ghost year_rem = rem;
    proof {
        lemma_year_of_months(y as int);
    }
    let mut m: u64 = 1;
    while rem >= days_in_month(y, m)
        invariant
            1 <= m <= 12,
            days_before_month(y as int, m as int) + rem == year_rem,
            year_rem < year_days(y as int),
            days_before_month(y as int, 13) == year_days(y as int),
        decreases 12 - m,
    {
        let md = days_in_month(y, m);
        if m == 12 {
            assert(days_before_month(y as int, 13) == days_before_month(y as int, 12) + month_days(y as int, 12));
            assert(false);
        }
        rem = rem - md;
        m = m + 1;
    }
    (y, m, rem + 1)
}

/// The calendar date of a Unix timestamp (seconds), as `YYYY-MM-DD`.
pub fn ts_to_date(ts: u64) -> (r: String)
    ensures
        is_text_of_day((ts / 86400) as int, r@),
{
    let (y, m, d) = civil_from_days(ts / 86400);
    let mut cs = padded_decimal(y, 4);
    cs.push('-');
    let mut mc = padded_decimal(m, 2);
    cs.append(&mut mc);
    cs.push('-');
    let mut dc = padded_decimal(d, 2);
    cs.append(&mut dc);
    let r = string_of(&cs);
    assert(r@ =~= date_text(y as nat, m as nat, d as nat));
    assert(day_number(y as int, m as int, d as int) == ts / 86400);
    r
}

/// The date of the day `n` days before the moment `now` (seconds since the
/// epoch), stopping at 1970-01-01.
pub fn date_before(now: u64, n: u64) -> (r: String)
    requires
        n <= u64::MAX / 86400,
    ensures
        is_text_of_day(day_before(now as int, n as int), r@),
{
    ts_to_date(now.saturating_sub(n * 86400))
}

/// `SystemTime::now()`, as whole seconds since the Unix epoch; `None` where the
/// clock stands before the epoch. Nothing is claimed of the value.
#[verifier::external_body]
fn unix_now() -> (r: Option<u64>) {
    SystemTime::now().duration_since(UNIX_EPOCH).ok().map(|d| d.as_secs())
}

/// The date `n` days before now; `None` where the clock stands before the epoch.
pub fn date_ago(n: u64) -> (r: Option<String>)
    requires
        n <= u64::MAX / 86400,
    ensures
        r matches Some(s) ==> exists|now: nat| is_text_of_day(#[trigger] day_before(now as int, n as int), s@),
{
    match unix_now() {
        Some(now) => {
            let s = date_before(now, n);
            assert(is_text_of_day(day_before(now as nat as int, n as int), s@));
            Some(s)
        },
        None => None,
    }
}

} // verus!
