//! Calendar dates and their serial day count.

use vstd::prelude::*;

verus! {

use crate::serial::SerialValue;
use vstd::arithmetic::div_mod::lemma_fundamental_div_mod;
use vstd::arithmetic::div_mod::lemma_fundamental_div_mod_converse;
use vstd::arithmetic::div_mod::lemma_mod_division_less_than_divisor;
use vstd::arithmetic::div_mod::lemma_mod_multiples_vanish;

/// A calendar date in the proleptic Gregorian calendar, with no time-of-day
/// and no timezone. Years from -9999 to 9999 are supported.
#[derive(Clone, Copy, PartialEq, Eq, Structural, Debug)]
pub struct CivilDate {
    pub year: i16,
    pub month: i8,
    pub day: i8,
}

/// Whether `y` is a leap year in the proleptic Gregorian calendar.
pub open spec fn is_leap_year(y: int) -> bool {
    (y % 4 == 0 && y % 100 != 0) || y % 400 == 0
}

/// The number of days in month `m` of year `y`.
pub open spec fn days_in_month(y: int, m: int) -> int {
    if m == 2 {
        if is_leap_year(y) {
            29
        } else {
            28
        }
    } else if m == 4 || m == 6 || m == 9 || m == 11 {
        30
    } else {
        31
    }
}

impl CivilDate {
    /// A well-formed date: month and day in range for its year.
    pub open spec fn wf(self) -> bool {
        &&& -9999 <= self.year <= 9999
        &&& 1 <= self.month <= 12
        &&& 1 <= self.day <= days_in_month(self.year as int, self.month as int)
    }

    /// Returns whether this date is well formed.
    pub fn is_valid(&self) -> (r: bool)
        ensures
            r == self.wf(),
    {
        -9999 <= self.year && self.year <= 9999 && 1 <= self.month && self.month <= 12
            && 1 <= self.day && self.day <= days_in_month_of(self.year, self.month)
    }
}

/// The number of days in the months of year `y` before month `m`.
pub open spec fn days_before_month(y: int, m: int) -> int
    decreases m,
{
    if m <= 1 {
        0
    } else {
        days_before_month(y, m - 1) + days_in_month(y, m - 1)
    }
}

/// The number of days in year `y`.
pub open spec fn days_in_year(y: int) -> int {
    if is_leap_year(y) {
        366
    } else {
        365
    }
}

/// The number of days in the years before year `y`, counted from the first
/// supported year, -9999.
pub open spec fn days_before_year(y: int) -> int
    decreases y + 9999,
{
    if y <= -9999 {
        0
    } else {
        days_before_year(y - 1) + days_in_year(y - 1)
    }
}

/// The day index of a date: how many days lie between -9999-01-01 (index 0)
/// and the date.
pub open spec fn day_index(d: CivilDate) -> int {
    days_before_year(d.year as int) + days_before_month(d.year as int, d.month as int) + d.day - 1
}

/// The epoch of the serial numbering: 1899-12-31, serial day 0, chosen so that
/// 1900-01-01 is serial day 1.
pub open spec fn epoch_date() -> CivilDate {
    CivilDate { year: 1899, month: 12, day: 31 }
}

/// The serial day count of a date: days since the epoch 1899-12-31, with one
/// day added past day 59 because the spreadsheet numbering treats 1900 as a
/// leap year and inserts the non-existent 1900-02-29 as its day 60.
pub open spec fn serial_days(d: CivilDate) -> int {
    let n = day_index(d) - day_index(epoch_date());
    if n > 59 {
        n + 1
    } else {
        n
    }
}

/// The calendar order on dates: strictly earlier.
pub open spec fn date_lt(a: CivilDate, b: CivilDate) -> bool {
    ||| a.year < b.year
    ||| (a.year == b.year && a.month < b.month)
    ||| (a.year == b.year && a.month == b.month && a.day < b.day)
}

/// The calendar order on dates: earlier or equal.
pub open spec fn date_le(a: CivilDate, b: CivilDate) -> bool {
    date_lt(a, b) || a == b
}

/// The date with serial day count 1: 1900-01-01, the day after the epoch.
pub open spec fn serial_day_one() -> CivilDate {
    CivilDate { year: 1900, month: 1, day: 1 }
}

/// Dividing `z` rather than `z - 1` by `d` raises the quotient exactly when
/// `d` divides `z`.
proof fn lemma_div_step(z: int, d: int)
    requires
        1 <= z,
        1 <= d,
    ensures
        z / d == (z - 1) / d + (if z % d == 0 { 1int } else { 0int }),
{
    let q = (z - 1) / d;
    let r = (z - 1) % d;
    lemma_fundamental_div_mod(z - 1, d);
    lemma_mod_division_less_than_divisor(z - 1, d);
    if r == d - 1 {
        assert(z == (q + 1) * d + 0) by (nonlinear_arith)
            requires
                z - 1 == d * q + r,
                r == d - 1,
        ;
        lemma_fundamental_div_mod_converse(z, d, q + 1, 0);
    } else {
        assert(z == q * d + (r + 1)) by (nonlinear_arith)
            requires
                z - 1 == d * q + r,
        ;
        lemma_fundamental_div_mod_converse(z, d, q, r + 1);
    }
}

/// Divisibility by 400 implies divisibility by 100, which implies
/// divisibility by 4.
proof fn lemma_divisibility_chain(z: int)
    requires
        0 <= z,
    ensures
        z % 400 == 0 ==> z % 100 == 0,
        z % 100 == 0 ==> z % 4 == 0,
{
    if z % 400 == 0 {
        lemma_fundamental_div_mod(z, 400);
        assert(z == 100 * (4 * (z / 400)) + 0);
        lemma_mod_multiples_vanish(4 * (z / 400), 0, 100);
    }
    if z % 100 == 0 {
        lemma_fundamental_div_mod(z, 100);
        assert(z == 4 * (25 * (z / 100)) + 0);
        lemma_mod_multiples_vanish(25 * (z / 100), 0, 4);
    }
}

/// The recursive year count has a closed form over the year shifted by 9999,
/// which keeps the dividends non-negative: each year contributes 365 days,
/// and the three quotients tally the leap years. The shift preserves every
/// remainder involved because 10000 is a multiple of 4, of 100 and of 400.
proof fn lemma_days_before_year_closed(y: int)
    requires
        -9999 <= y <= 10000,
    ensures
        days_before_year(y) == 365 * (y + 9999) + (y + 9999) / 4 - (y + 9999) / 100 + (y + 9999)
            / 400,
    decreases y + 9999,
{
    let z = y + 9999;
    if y == -9999 {
        assert(0int / 4 == 0 && 0int / 100 == 0 && 0int / 400 == 0);
    } else {
        lemma_days_before_year_closed(y - 1);
        lemma_div_step(z, 4);
        lemma_div_step(z, 100);
        lemma_div_step(z, 400);
        lemma_divisibility_chain(z);
        lemma_mod_multiples_vanish(-2500, z, 4);
        lemma_mod_multiples_vanish(-100, z, 100);
        lemma_mod_multiples_vanish(-25, z, 400);
        assert((y - 1) % 4 == z % 4 && (y - 1) % 100 == z % 100 && (y - 1) % 400 == z % 400);
    }
}

/// Returns whether `y` is a leap year in the proleptic Gregorian calendar.
pub fn leap_year(y: i16) -> (r: bool)
    requires
        -9999 <= y <= 9999,
    ensures
        r == is_leap_year(y as int),
{
    // Shift into non-negative range so that machine remainder agrees with the
    // mathematical one; 10000 is a multiple of 4, 100 and 400, so the shift
    // changes no remainder by those divisors.
    let w: u32 = (y as i32 + 10000) as u32;
    proof {
        lemma_mod_multiples_vanish(2500, y as int, 4);
        lemma_mod_multiples_vanish(100, y as int, 100);
        lemma_mod_multiples_vanish(25, y as int, 400);
    }
    (w % 4 == 0 && w % 100 != 0) || w % 400 == 0
}

/// The number of days in the months of year `y` before month `m`.
pub fn days_before_month_of(y: i16, m: i8) -> (r: u16)
    requires
        -9999 <= y <= 9999,
        1 <= m <= 12,
    ensures
        r == days_before_month(y as int, m as int),
        r <= 335,
{
    let base: u16 = match m {
        1 => 0,
        2 => 31,
        3 => 59,
        4 => 90,
        5 => 120,
        6 => 151,
        7 => 181,
        8 => 212,
        9 => 243,
        10 => 273,
        11 => 304,
        _ => 334,
    };
    let r = if m > 2 && leap_year(y) {
        base + 1
    } else {
        base
    };
    proof {
        reveal_with_fuel(days_before_month, 13);
    }
    r
}

/// The number of days in the years before year `y`, counted from -9999.
pub fn days_before_year_of(y: i16) -> (r: u32)
    requires
        -9999 <= y <= 9999,
    ensures
        r == days_before_year(y as int),
        r <= 7_304_119,
{
    let z: u32 = (y as i32 + 9999) as u32;
    proof {
        lemma_days_before_year_closed(y as int);
        lemma_fundamental_div_mod(z as int, 4);
        lemma_fundamental_div_mod(z as int, 100);
        lemma_fundamental_div_mod(z as int, 400);
        lemma_mod_division_less_than_divisor(z as int, 4);
        lemma_mod_division_less_than_divisor(z as int, 100);
        lemma_mod_division_less_than_divisor(z as int, 400);
    }
    365 * z + z / 4 + z / 400 - z / 100
}

/// The day index of a date: how many days lie between -9999-01-01 (index 0)
/// and the date.
pub fn day_index_of(d: &CivilDate) -> (r: u32)
    requires
        d.wf(),
    ensures
        r == day_index(*d),
        r <= 7_304_484,
{
    let dby = days_before_year_of(d.year);
    let dbm = days_before_month_of(d.year, d.month) as u32;
    dby + dbm + (d.day as u32 - 1)
}

/// The epoch of the serial numbering, 1899-12-31.
pub fn epoch() -> (d: CivilDate)
    ensures
        d == epoch_date(),
        d.wf(),
{
    CivilDate { year: 1899, month: 12, day: 31 }
}

/// Converts a calendar date to its serial value: the whole number of days
/// since the epoch 1899-12-31, counted in the spreadsheet's own numbering
/// (one extra day past day 59, for the non-existent 1900-02-29 it inserts),
/// and no fraction of a day.
pub fn date_to_serial(d: &CivilDate) -> (s: SerialValue)
    requires
        d.wf(),
    ensures
        s.days == serial_days(*d),
        s.millis_of_day == 0,
{
    let di = day_index_of(d) as i64;
    let e = epoch();
    let ei = day_index_of(&e) as i64;
    let n = di - ei;
    let days: i64 = if n > 59 {
        n + 1
    } else {
        n
    };
    SerialValue { days, millis_of_day: 0 }
}

/// The number of days in month `m` of year `y`.
pub fn days_in_month_of(y: i16, m: i8) -> (r: i8)
    requires
        -9999 <= y <= 9999,
        1 <= m <= 12,
    ensures
        r == days_in_month(y as int, m as int),
{
    if m == 2 {
        if leap_year(y) {
            29
        } else {
            28
        }
    } else if m == 4 || m == 6 || m == 9 || m == 11 {
        30
    } else {
        31
    }
}

/// Later months of a year have at least as many days before them.
proof fn lemma_days_before_month_monotone(y: int, m1: int, m2: int)
    requires
        1 <= m1 <= m2 <= 12,
    ensures
        days_before_month(y, m1) <= days_before_month(y, m2),
    decreases m2 - m1,
{
    if m1 < m2 {
        lemma_days_before_month_monotone(y, m1, m2 - 1);
    }
}

/// A month and the months before it fit within the days of their year.
proof fn lemma_months_fit_in_year(y: int, m: int)
    requires
        1 <= m <= 12,
    ensures
        days_before_month(y, m) + days_in_month(y, m) <= days_in_year(y),
{
    assert(days_before_month(y, 12) + days_in_month(y, 12) == days_in_year(y)) by {
        reveal_with_fuel(days_before_month, 13);
    }
    if m < 12 {
        assert(days_before_month(y, m + 1) == days_before_month(y, m) + days_in_month(y, m));
        lemma_days_before_month_monotone(y, m + 1, 12);
    }
}

/// Later years have at least 365 more days before them per year passed.
proof fn lemma_days_before_year_monotone(y1: int, y2: int)
    requires
        -9999 <= y1 <= y2,
    ensures
        days_before_year(y1) + 365 * (y2 - y1) <= days_before_year(y2),
    decreases y2 - y1,
{
    if y1 < y2 {
        lemma_days_before_year_monotone(y1, y2 - 1);
    }
}

/// The day index of a date lies within the span of its year.
proof fn lemma_day_index_in_year(d: CivilDate)
    requires
        d.wf(),
    ensures
        days_before_year(d.year as int) <= day_index(d),
        day_index(d) < days_before_year(d.year as int + 1),
{
    let y = d.year as int;
    let m = d.month as int;
    lemma_days_before_month_monotone(y, 1, m);
    lemma_months_fit_in_year(y, m);
    assert(days_before_year(y + 1) == days_before_year(y) + days_in_year(y));
}

/// Strictly later dates have strictly larger day indices: the day count
/// respects the calendar order.
pub proof fn lemma_day_index_strictly_monotone(d1: CivilDate, d2: CivilDate)
    requires
        d1.wf(),
        d2.wf(),
        date_lt(d1, d2),
    ensures
        day_index(d1) < day_index(d2),
{
    let y1 = d1.year as int;
    let y2 = d2.year as int;
    let m1 = d1.month as int;
    let m2 = d2.month as int;
    if y1 < y2 {
        lemma_day_index_in_year(d1);
        lemma_day_index_in_year(d2);
        lemma_days_before_year_monotone(y1 + 1, y2);
    } else if m1 < m2 {
        assert(days_before_month(y1, m1 + 1) == days_before_month(y1, m1) + days_in_month(
            y1,
            m1,
        ));
        lemma_days_before_month_monotone(y1, m1 + 1, m2);
    }
}

/// The phantom day is skipped in the numbering: no date has serial day count
/// 60. The count jumps from 59 (1900-02-28) to 61 (1900-03-01), reserving 60
/// for the non-existent 1900-02-29.
pub proof fn lemma_serial_day_sixty_skipped(d: CivilDate)
    ensures
        serial_days(d) != 60,
{
}

/// The serial day count respects the calendar order strictly, also across the
/// phantom day: a later date always has a larger count.
pub proof fn lemma_serial_days_strictly_monotone(d1: CivilDate, d2: CivilDate)
    requires
        d1.wf(),
        d2.wf(),
        date_lt(d1, d2),
    ensures
        serial_days(d1) < serial_days(d2),
{
    lemma_day_index_strictly_monotone(d1, d2);
}

/// Every date at or after 1900-01-01, the day after the epoch, has a positive
/// serial day count; in particular the count is never negative there.
pub proof fn lemma_serial_days_nonnegative(d: CivilDate)
    requires
        d.wf(),
        date_le(serial_day_one(), d),
    ensures
        1 <= serial_days(d),
{
    assert(epoch_date().wf() && serial_day_one().wf());
    lemma_day_index_strictly_monotone(epoch_date(), serial_day_one());
    if d != serial_day_one() {
        lemma_day_index_strictly_monotone(serial_day_one(), d);
    }
}

} // verus!
