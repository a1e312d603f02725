//! Cross-checks against jiff's own calendar and duration arithmetic: the
//! library's integer day counts and millisecond fractions must reproduce the
//! serial numbers that jiff's civil types yield.

use excel_serial::date::date_to_serial;
use excel_serial::date::CivilDate;
use excel_serial::datetime::datetime_to_serial;
use excel_serial::datetime::CivilDateTime;
use excel_serial::time::time_to_serial;
use excel_serial::time::CivilTime;

#[test]
fn date_serials_match_jiff_day_arithmetic() {
    let samples: [(i16, i8, i8); 8] = [
        (1899, 12, 31),
        (1900, 1, 1),
        (1900, 2, 28),
        (1900, 3, 1),
        (1999, 12, 31),
        (2000, 2, 29),
        (2023, 1, 1),
        (2026, 1, 1),
    ];
    let epoch = jiff::civil::date(1899, 12, 31);
    for (year, month, day) in samples {
        let jd = jiff::civil::date(year, month, day);
        let mut expected = f64::from((jd - epoch).get_days());
        if expected > 59.0 {
            expected += 1.0;
        }
        let d = CivilDate { year: jd.year(), month: jd.month(), day: jd.day() };
        assert!(d.is_valid());
        let s = date_to_serial(&d);
        assert_eq!(s.days as f64 + s.millis_of_day as f64 / 86_400_000.0, expected);
    }
}

#[test]
fn time_serials_match_jiff_duration_arithmetic() {
    let samples: [(i8, i8, i8, i32); 5] = [
        (0, 0, 0, 0),
        (12, 0, 0, 0),
        (6, 30, 15, 500_000_000),
        (23, 59, 59, 999_000_000),
        (1, 2, 3, 4_000_000),
    ];
    let midnight = jiff::civil::time(0, 0, 0, 0);
    for (hour, minute, second, subsec_nanosecond) in samples {
        let jt = jiff::civil::time(hour, minute, second, subsec_nanosecond);
        let expected = (jt - midnight).total(jiff::Unit::Millisecond).unwrap()
            / (24.0 * 60.0 * 60.0 * 1000.0);
        let t = CivilTime {
            hour: jt.hour(),
            minute: jt.minute(),
            second: jt.second(),
            subsec_nanosecond: jt.subsec_nanosecond(),
        };
        assert!(t.is_valid());
        let s = time_to_serial(&t);
        assert_eq!(s.days as f64 + s.millis_of_day as f64 / 86_400_000.0, expected);
    }
}

#[test]
fn datetime_serial_matches_jiff() {
    let jdt = jiff::civil::date(2026, 1, 1).at(12, 0, 0, 0);
    let epoch = jiff::civil::date(1899, 12, 31);
    let mut expected_date = f64::from((jdt.date() - epoch).get_days());
    if expected_date > 59.0 {
        expected_date += 1.0;
    }
    let expected_time = (jdt.time() - jiff::civil::time(0, 0, 0, 0))
        .total(jiff::Unit::Millisecond)
        .unwrap()
        / (24.0 * 60.0 * 60.0 * 1000.0);
    let dt = CivilDateTime {
        date: CivilDate { year: jdt.year(), month: jdt.month(), day: jdt.day() },
        time: CivilTime {
            hour: jdt.hour(),
            minute: jdt.minute(),
            second: jdt.second(),
            subsec_nanosecond: jdt.subsec_nanosecond(),
        },
    };
    assert!(dt.is_valid());
    let s = datetime_to_serial(&dt);
    let got = s.days as f64 + s.millis_of_day as f64 / 86_400_000.0;
    assert_eq!(got, expected_date + expected_time);
    assert_eq!(got, 46023.5);
}
