//! Times of day and their fraction-of-a-day serial value.

use vstd::prelude::*;

verus! {

use crate::serial::SerialValue;
use vstd::arithmetic::div_mod::lemma_fundamental_div_mod;
use vstd::arithmetic::div_mod::lemma_fundamental_div_mod_converse;
use vstd::arithmetic::div_mod::lemma_mod_division_less_than_divisor;

/// A time of day with no date and no timezone, at nanosecond resolution.
/// Components below one millisecond do not reach the serial value: the
/// milliseconds are truncated out of the nanoseconds, never rounded up.
#[derive(Clone, Copy, PartialEq, Eq, Structural, Debug)]
pub struct CivilTime {
    pub hour: i8,
    pub minute: i8,
    pub second: i8,
    pub subsec_nanosecond: i32,
}

impl CivilTime {
    /// A well-formed time of day: every component in range.
    pub open spec fn wf(self) -> bool {
        &&& 0 <= self.hour <= 23
        &&& 0 <= self.minute <= 59
        &&& 0 <= self.second <= 59
        &&& 0 <= self.subsec_nanosecond <= 999_999_999
    }

    /// Returns whether this time of day is well formed.
    pub fn is_valid(&self) -> (r: bool)
        ensures
            r == self.wf(),
    {
        0 <= self.hour && self.hour <= 23 && 0 <= self.minute && self.minute <= 59
            && 0 <= self.second && self.second <= 59 && 0 <= self.subsec_nanosecond
            && self.subsec_nanosecond <= 999_999_999
    }
}

/// The milliseconds elapsed between midnight and the time, with anything below
/// one millisecond truncated away.
pub open spec fn serial_millis(t: CivilTime) -> int {
    ((t.hour * 60 + t.minute) * 60 + t.second) * 1000 + t.subsec_nanosecond / 1_000_000
}

/// Converts a time of day to its serial value: no whole days, and the
/// fraction of a 24-hour day elapsed since midnight, held exactly as
/// milliseconds (serial number times 86,400,000). The result is well formed,
/// so the fraction always lies in [0, 1).
pub fn time_to_serial(t: &CivilTime) -> (s: SerialValue)
    requires
        t.wf(),
    ensures
        s.days == 0,
        s.millis_of_day == serial_millis(*t),
        s.wf(),
{
    let secs: u32 = (t.hour as u32) * 3600 + (t.minute as u32) * 60 + (t.second as u32);
    proof {
        lemma_fundamental_div_mod(t.subsec_nanosecond as int, 1_000_000);
        lemma_mod_division_less_than_divisor(t.subsec_nanosecond as int, 1_000_000);
    }
    let ms: u32 = secs * 1000 + (t.subsec_nanosecond as u32) / 1_000_000;
    SerialValue { days: 0, millis_of_day: ms }
}

/// Times that differ at millisecond resolution have distinct serial values,
/// and times that agree to the millisecond, differing only below it, share
/// one: the serial value resolves a time of day exactly to the millisecond.
pub proof fn lemma_serial_millis_resolution(t1: CivilTime, t2: CivilTime)
    requires
        t1.wf(),
        t2.wf(),
    ensures
        serial_millis(t1) == serial_millis(t2) <==> (t1.hour == t2.hour && t1.minute == t2.minute
            && t1.second == t2.second && t1.subsec_nanosecond / 1_000_000 == t2.subsec_nanosecond
            / 1_000_000),
{
    let ms1 = t1.subsec_nanosecond / 1_000_000;
    let ms2 = t2.subsec_nanosecond / 1_000_000;
    lemma_fundamental_div_mod(t1.subsec_nanosecond as int, 1_000_000);
    lemma_mod_division_less_than_divisor(t1.subsec_nanosecond as int, 1_000_000);
    lemma_fundamental_div_mod(t2.subsec_nanosecond as int, 1_000_000);
    lemma_mod_division_less_than_divisor(t2.subsec_nanosecond as int, 1_000_000);
    if serial_millis(t1) == serial_millis(t2) {
        let n = serial_millis(t1);
        let secs1 = (t1.hour * 60 + t1.minute) * 60 + t1.second;
        let secs2 = (t2.hour * 60 + t2.minute) * 60 + t2.second;
        lemma_fundamental_div_mod_converse(n, 1000, secs1, ms1);
        lemma_fundamental_div_mod_converse(n, 1000, secs2, ms2);
        lemma_fundamental_div_mod_converse(secs1, 60, t1.hour * 60 + t1.minute, t1.second as int);
        lemma_fundamental_div_mod_converse(secs2, 60, t2.hour * 60 + t2.minute, t2.second as int);
        lemma_fundamental_div_mod_converse(
            t1.hour * 60 + t1.minute,
            60,
            t1.hour as int,
            t1.minute as int,
        );
        lemma_fundamental_div_mod_converse(
            t2.hour * 60 + t2.minute,
            60,
            t2.hour as int,
            t2.minute as int,
        );
    }
}

} // verus!
