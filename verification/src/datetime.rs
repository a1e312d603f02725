//! Combined date-times and their serial value.

use vstd::prelude::*;

verus! {

use crate::date::CivilDate;
use crate::date::date_to_serial;
use crate::date::serial_days;
use crate::serial::SerialValue;
use crate::serial::serial_num;
use crate::time::CivilTime;
use crate::time::serial_millis;
use crate::time::time_to_serial;

/// A calendar date together with a time of day, with no timezone.
#[derive(Clone, Copy, PartialEq, Eq, Structural, Debug)]
pub struct CivilDateTime {
    pub date: CivilDate,
    pub time: CivilTime,
}

impl CivilDateTime {
    /// A well-formed date-time: both components well formed.
    pub open spec fn wf(self) -> bool {
        self.date.wf() && self.time.wf()
    }

    /// Returns whether this date-time is well formed.
    pub fn is_valid(&self) -> (r: bool)
        ensures
            r == self.wf(),
    {
        self.date.is_valid() && self.time.is_valid()
    }
}

/// Converts a date-time to its serial value: the whole days come from the
/// date alone and the milliseconds of the day from the time alone, so the
/// result is exactly the sum of the two components' serial values.
pub fn datetime_to_serial(dt: &CivilDateTime) -> (s: SerialValue)
    requires
        dt.wf(),
    ensures
        s.days == serial_days(dt.date),
        s.millis_of_day == serial_millis(dt.time),
        s.wf(),
{
    let d = date_to_serial(&dt.date);
    let t = time_to_serial(&dt.time);
    SerialValue { days: d.days, millis_of_day: t.millis_of_day }
}

/// The serial number of a date-time is exactly the serial number of its date
/// plus the serial number of its time: on the common millisecond scale the
/// date contributes only whole days and the time only a fraction of one day,
/// so adding the two loses nothing. The arguments are the serial values that
/// the three conversions return, as their contracts describe them.
pub proof fn lemma_datetime_serial_additive(
    dt: CivilDateTime,
    ds: SerialValue,
    ts: SerialValue,
    s: SerialValue,
)
    requires
        ds.days == serial_days(dt.date),
        ds.millis_of_day == 0,
        ts.days == 0,
        ts.millis_of_day == serial_millis(dt.time),
        s.days == serial_days(dt.date),
        s.millis_of_day == serial_millis(dt.time),
    ensures
        serial_num(s) == serial_num(ds) + serial_num(ts),
{
}

} // verus!
