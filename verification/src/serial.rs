//! The serial date-time value, held exactly as whole days and milliseconds.

use vstd::prelude::*;

verus! {

/// Milliseconds in a 24-hour day: 24 * 60 * 60 * 1000.
pub const MILLIS_PER_DAY: u32 = 86_400_000;

/// A spreadsheet serial date-time, held exactly: `days` is the whole number of
/// days since the epoch and `millis_of_day` the milliseconds elapsed since
/// midnight. The number the spreadsheet file stores is
/// `days + millis_of_day / 86_400_000`; callers perform that one division in
/// floating point, and both parts here are exact, so nothing is lost before it.
#[derive(Clone, Copy, PartialEq, Eq, Structural, Debug)]
pub struct SerialValue {
    pub days: i64,
    pub millis_of_day: u32,
}

impl SerialValue {
    /// A well-formed serial value: the milliseconds stay below one full day,
    /// so the fractional part of the serial number lies in [0, 1).
    pub open spec fn wf(self) -> bool {
        self.millis_of_day < MILLIS_PER_DAY
    }
}

/// The serial value as a single exact number on the millisecond scale:
/// the stored floating-point number times 86,400,000.
pub open spec fn serial_num(s: SerialValue) -> int {
    s.days * MILLIS_PER_DAY + s.millis_of_day
}

} // verus!
