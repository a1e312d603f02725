//! Conversion of civil (timezone-free) calendar dates and times of day to the
//! serial date-time numbers used by spreadsheet files.
//!
//! A serial date-time is a single number: its whole part counts days since a
//! fixed epoch (1899-12-31, so that 1900-01-01 is day 1), and its fractional
//! part is the fraction of a 24-hour day elapsed since midnight, with
//! millisecond resolution. For compatibility with the spreadsheet format's own
//! numbering, the year 1900 is deliberately treated as a leap year even though
//! it is not: every date after the non-existent 1900-02-29 has one extra day
//! added to its count.
//!
//! The library computes serial values exactly, over integers: a [`SerialValue`]
//! holds the whole days and the milliseconds of the day separately. Callers
//! that need the combined floating-point number divide the milliseconds by the
//! number of milliseconds in a day (86,400,000) and add; both parts are exact,
//! so no precision is lost before that final division.

pub mod date;
pub mod datetime;
pub mod serial;
pub mod time;
