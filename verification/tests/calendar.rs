use nba_odds::calendar::{
    day_of_week, days_since, et_offset, et_offset_at, prev_day, ymd_to_jdn,
};

fn length(year: i32, month: u32) -> u32 {
    match month {
        4 | 6 | 9 | 11 => 30,
        2 if year % 4 == 0 && (year % 100 != 0 || year % 400 == 0) => 29,
        2 => 28,
        _ => 31,
    }
}

#[test]
fn known_weekdays() {
    assert_eq!(day_of_week(2026, 3, 9), 1);
    assert_eq!(day_of_week(2000, 1, 1), 6);
    assert_eq!(day_of_week(1970, 1, 1), 4);
    assert_eq!(day_of_week(2024, 2, 29), 4);
    assert_eq!(day_of_week(2026, 3, 8), 0);
}

#[test]
fn known_day_numbers() {
    assert_eq!(ymd_to_jdn(2000, 1, 1), 2_451_545);
    assert_eq!(ymd_to_jdn(1970, 1, 1), 2_440_588);
    assert_eq!(ymd_to_jdn(2026, 3, 9), 2_461_109);
    assert_eq!(ymd_to_jdn(1582, 10, 15), 2_299_161);
}

#[test]
fn days_step_through_the_calendar() {
    let mut number = ymd_to_jdn(1899, 12, 31);
    let mut weekday = day_of_week(1899, 12, 31);
    let mut before = (1899, 12, 31);
    for year in 1900..2105 {
        for month in 1..=12 {
            for day in 1..=length(year, month) {
                assert_eq!(ymd_to_jdn(year, month, day), number + 1);
                assert_eq!(day_of_week(year, month, day), (weekday + 1) % 7);
                assert_eq!(prev_day(year, month, day), before);
                number += 1;
                weekday = (weekday + 1) % 7;
                before = (year, month, day);
            }
        }
    }
}

#[test]
fn the_day_before() {
    assert_eq!(prev_day(2026, 3, 9), (2026, 3, 8));
    assert_eq!(prev_day(2026, 3, 1), (2026, 2, 28));
    assert_eq!(prev_day(2024, 3, 1), (2024, 2, 29));
    assert_eq!(prev_day(1900, 3, 1), (1900, 2, 28));
    assert_eq!(prev_day(2000, 3, 1), (2000, 2, 29));
    assert_eq!(prev_day(2026, 1, 1), (2025, 12, 31));
    assert_eq!(prev_day(2026, 14, 1), (2026, 13, 30));
}

#[test]
fn eastern_time_changes_on_sundays() {
    // 2026: from March 8 to November 1.
    assert_eq!(et_offset(2026, 3, 7), -5);
    assert_eq!(et_offset(2026, 3, 8), -4);
    assert_eq!(et_offset(2026, 10, 31), -4);
    assert_eq!(et_offset(2026, 11, 1), -5);
    // 2025: from March 9 to November 2.
    assert_eq!(et_offset(2025, 3, 8), -5);
    assert_eq!(et_offset(2025, 3, 9), -4);
    assert_eq!(et_offset(2025, 11, 1), -4);
    assert_eq!(et_offset(2025, 11, 2), -5);
    assert_eq!(et_offset(2026, 1, 15), -5);
    assert_eq!(et_offset(2026, 7, 4), -4);
    assert_eq!(et_offset(2026, 12, 25), -5);
}

#[test]
fn days_since_a_date() {
    let noon = 1_773_057_600; // 2026-03-09, 12:00 UTC
    assert_eq!(days_since(noon, 2026, 3, 9), 0);
    assert_eq!(days_since(noon, 2026, 3, 8), 1);
    assert_eq!(days_since(noon, 2026, 2, 23), 14);
    assert_eq!(days_since(noon, 2026, 3, 10), -1);
    assert_eq!(days_since(0, 1970, 1, 1), 0);
    assert_eq!(days_since(86_399, 1970, 1, 1), 0);
    assert_eq!(days_since(86_400, 1970, 1, 1), 1);
}

#[test]
fn eastern_time_changes_at_two_in_the_morning() {
    for (day, hour, offset) in [
        (7, 23, -5),
        (8, 0, -5),
        (8, 6, -5),
        (8, 7, -4),
        (8, 23, -4),
        (9, 0, -4),
    ] {
        assert_eq!(et_offset_at(2026, 3, day, hour), offset, "March {} {}", day, hour);
    }
    for (month, day, hour, offset) in [
        (10, 31, 23, -4),
        (11, 1, 0, -4),
        (11, 1, 5, -4),
        (11, 1, 6, -5),
        (11, 1, 23, -5),
        (11, 2, 0, -5),
    ] {
        assert_eq!(et_offset_at(2026, month, day, hour), offset, "{}/{} {}", month, day, hour);
    }
    assert_eq!(et_offset_at(2026, 7, 4, 3), -4);
    assert_eq!(et_offset_at(2026, 1, 1, 3), -5);
}

#[test]
fn days_before_year_one() {
    assert_eq!(day_of_week(0, 1, 1), 6);
    assert_eq!(ymd_to_jdn(0, 1, 1), 1_721_060);
    assert_eq!(ymd_to_jdn(-4713, 11, 24), 0);
    for year in [-5001, -4801, -4800, -401, -400, -101, -100, -5, -4, -1, 0, 1] {
        let mut number = ymd_to_jdn(year, 1, 1) - 1;
        for month in 1..=12 {
            for day in 1..=length(year, month) {
                number += 1;
                assert_eq!(ymd_to_jdn(year, month, day), number, "{}/{}/{}", month, day, year);
                assert_eq!(day_of_week(year, month, day) as i64, (number + 1).rem_euclid(7));
            }
        }
        assert_eq!(ymd_to_jdn(year + 1, 1, 1), number + 1);
    }
}
