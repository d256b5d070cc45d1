use datetime::{Datetime, UtcSuffixStyle};

const EPOCH: u64 = 978307200;

/// Independent reconstruction of the second count from calendar fields,
/// used to exercise the round-trip property on concrete values.
fn seconds_from_fields(year: u64, month: u64, day: u64, hour: u64, min: u64, sec: u64) -> u64 {
    let table: [u64; 13] = [0, 31, 59, 90, 120, 151, 181, 212, 243, 273, 304, 334, 365];
    let mut before_month = table[(month - 1) as usize];
    if year % 4 == 0 && month > 2 {
        before_month += 1;
    }
    let days = 365 * (year - 2001) + ((year - 1) / 4 - 500) + before_month + (day - 1);
    EPOCH + days * 86400 + hour * 3600 + min * 60 + sec
}

#[test]
fn it_should_return_a_datetime() {
    let ts = 1712224891;
    let dt = Datetime::new(ts);
    assert_eq!(ts, dt.timestamp());
}

#[test]
fn it_should_calculate_gregorian_dates() {
    assert_eq!((2023, 1, 1), Datetime::new(1672531200).date());
    assert_eq!((2023, 1, 31), Datetime::new(1675123200).date());
    assert_eq!((2023, 2, 28), Datetime::new(1677542400).date());
    assert_eq!((2023, 3, 1), Datetime::new(1677628800).date());
    assert_eq!((2023, 12, 31), Datetime::new(1703980800).date());
    assert_eq!((2024, 1, 1), Datetime::new(1704067200).date());
    assert_eq!((2024, 1, 31), Datetime::new(1706659200).date());
    assert_eq!((2024, 2, 28), Datetime::new(1709078400).date());
    assert_eq!((2024, 2, 29), Datetime::new(1709164800).date());
    assert_eq!((2024, 3, 1), Datetime::new(1709251200).date());
    assert_eq!((2024, 4, 1), Datetime::new(1711929600).date());
    assert_eq!((2024, 4, 5), Datetime::new(1712311291).date());
    assert_eq!((2024, 12, 30), Datetime::new(1735516800).date());
    assert_eq!((2024, 12, 31), Datetime::new(1735603200).date());
}

#[test]
fn it_should_calculate_times() {
    assert_eq!((0, 0, 0), Datetime::new(1672531200).time());
    assert_eq!((10, 1, 31), Datetime::new(1712311291).time());
    assert_eq!((11, 59, 59), Datetime::new(1712318399).time());
    assert_eq!((23, 59, 59), Datetime::new(1712361599).time());
}

#[test]
fn it_should_format_dates_according_to_iso8601() {
    assert_eq!(
        "2024-04-05T10:01:31Z",
        Datetime::new(1712311291).format_iso8601(),
    );
}

#[test]
fn round_trip_reconstructs_the_timestamp() {
    for &ts in &[
        EPOCH,
        EPOCH + 1,
        1672531200,
        1709251199,
        1712311291,
        1735689599,
        4102444799,
    ] {
        let dt = Datetime::new(ts);
        let (y, mo, d) = dt.date();
        let (h, mi, s) = dt.time();
        assert_eq!(ts, seconds_from_fields(y, mo, d, h, mi, s));
    }
}

#[test]
fn month_boundaries_roll_over() {
    // last second of January 2024 / first second of February 2024
    assert_eq!((2024, 1, 31), Datetime::new(1706745599).date());
    assert_eq!((2024, 2, 1), Datetime::new(1706745600).date());
    // last second of April 2023 (30 days) / first second of May 2023
    assert_eq!((2023, 4, 30), Datetime::new(1682899199).date());
    assert_eq!((2023, 5, 1), Datetime::new(1682899200).date());
    // December rolls over into January of the next year
    assert_eq!((2023, 12, 31), Datetime::new(1704067199).date());
    assert_eq!((2024, 1, 1), Datetime::new(1704067200).date());
}

#[test]
fn leap_day_boundary() {
    // last second of 2024-02-29, then the first second of March
    let before = Datetime::new(1709251199);
    assert_eq!((2024, 2, 29), before.date());
    assert_eq!((23, 59, 59), before.time());
    let after = Datetime::new(1709251200);
    assert_eq!((2024, 3, 1), after.date());
    assert_eq!((0, 0, 0), after.time());
    // a common year has no February 29
    assert_eq!((2023, 2, 28), Datetime::new(1677628799).date());
}

#[test]
fn cycle_end_maps_to_december_31() {
    // last second of the first 4-year cycle after the epoch
    assert_eq!((2004, 12, 31), Datetime::new(1104537599).date());
    assert_eq!((2005, 1, 1), Datetime::new(1104537600).date());
    // the 366th day of a later cycle's leap year
    assert_eq!((2024, 12, 31), Datetime::new(1735689599).date());
    assert_eq!((2025, 1, 1), Datetime::new(1735689600).date());
}

#[test]
fn midnight_rollover() {
    // exactly on a day boundary
    let midnight = Datetime::new(1712361600);
    assert_eq!((0, 0, 0), midnight.time());
    assert_eq!((2024, 4, 6), midnight.date());
    // one second before belongs to the prior day
    let before = Datetime::new(1712361599);
    assert_eq!((23, 59, 59), before.time());
    assert_eq!((2024, 4, 5), before.date());
}

#[test]
fn pre_epoch_timestamps_are_rejected() {
    assert_eq!(None, Datetime::new(0).try_date());
    assert_eq!(None, Datetime::new(EPOCH - 1).try_date());
    assert_eq!(Some((2001, 1, 1)), Datetime::new(EPOCH).try_date());
}

#[test]
fn formats_the_epoch_and_field_padding() {
    assert_eq!("2001-01-01T00:00:00Z", Datetime::new(EPOCH).format_iso8601());
    assert_eq!(
        "2009-09-09T09:09:09Z",
        Datetime::new(seconds_from_fields(2009, 9, 9, 9, 9, 9)).format_iso8601(),
    );
    assert_eq!(
        "2024-12-31T23:59:59Z",
        Datetime::new(1735689599).format_iso8601(),
    );
}

#[test]
fn suffix_style_is_a_documented_choice() {
    let dt = Datetime::new(1712311291);
    assert_eq!(
        "2024-04-05T10:01:31Z",
        dt.format_iso8601_with_style(UtcSuffixStyle::Z),
    );
    assert_eq!(
        "2024-04-05T10:01:31+00:00",
        dt.format_iso8601_with_style(UtcSuffixStyle::Offset),
    );
}

#[test]
fn cross_check_against_chrono() {
    // a deterministic sweep of the window 2001..=2099, stride coprime to
    // 86400 so the sampled instants fall at varied times of day
    let max_2099: u64 = 4102444799;
    let mut ts = EPOCH;
    while ts <= max_2099 {
        let expected = chrono::DateTime::from_timestamp(ts as i64, 0)
            .unwrap()
            .format("%Y-%m-%dT%H:%M:%SZ")
            .to_string();
        assert_eq!(expected, Datetime::new(ts).format_iso8601());
        ts += 62497;
    }
    // and the boundary instants of every February in the window
    for year in 2001..=2099u64 {
        let feb_end = seconds_from_fields(year, 2, 28, 23, 59, 59);
        for &t in &[feb_end, feb_end + 1, feb_end + 86400] {
            let expected = chrono::DateTime::from_timestamp(t as i64, 0)
                .unwrap()
                .format("%Y-%m-%dT%H:%M:%SZ")
                .to_string();
            assert_eq!(expected, Datetime::new(t).format_iso8601());
        }
    }
}
