use nba_odds::schedule::{
    clock_fits, clock_of_stamp, date_fits, date_of_stamp, date_text, format_game_time, plain_time,
    short_date_from_iso, short_date_of_stamp, stamp_text, try_format_game_time,
    try_short_date_from_iso,
};

#[test]
fn date_of_a_stamp_is_the_eastern_date() {
    assert_eq!(short_date_from_iso("2026-03-09T23:00Z"), "3/9/2026");
    // 8 p.m. on the day before
    assert_eq!(short_date_from_iso("2026-03-10T00:00Z"), "3/9/2026");
    assert_eq!(short_date_from_iso("2026-03-10T03:30Z"), "3/9/2026");
    assert_eq!(short_date_from_iso("2026-03-10T04:00Z"), "3/10/2026");
    // in winter the clock is one hour further back
    assert_eq!(short_date_from_iso("2026-01-01T04:30Z"), "12/31/2025");
    assert_eq!(short_date_from_iso("2026-01-01T05:00Z"), "1/1/2026");
    assert_eq!(short_date_from_iso(" 2026-03-09t23:00z "), "3/9/2026");
}

#[test]
fn date_of_a_stamp_without_an_hour_is_kept() {
    assert_eq!(short_date_from_iso("2026-03-09T"), "3/9/2026");
    assert_eq!(short_date_from_iso("2026-03-09Tnoon:30"), "3/9/2026");
    assert_eq!(short_date_from_iso("2026-03-09T0000Z"), "3/9/2026");
}

#[test]
fn texts_without_a_date() {
    assert_eq!(short_date_from_iso("7:00 PM"), "");
    assert_eq!(short_date_from_iso(""), "");
    assert_eq!(short_date_from_iso("2026-03T23:00Z"), "");
    assert_eq!(short_date_from_iso("2026-xx-09T23:00Z"), "");
    assert_eq!(short_date_from_iso("-2026-03-09T23:00Z"), "");
}

#[test]
fn time_of_a_stamp_is_eastern_time() {
    assert_eq!(format_game_time("2026-03-09T23:00Z"), "7:00pm");
    assert_eq!(format_game_time("2026-03-09T04:05Z"), "12:05am");
    assert_eq!(format_game_time("2026-03-09T16:00Z"), "12:00pm");
    assert_eq!(format_game_time("2026-01-15T00:30Z"), "7:30pm");
    assert_eq!(format_game_time("2026-03-09T15:59:59Z"), "11:59am");
}

#[test]
fn plain_times() {
    assert_eq!(format_game_time("7:00 PM"), "7:00pm");
    assert_eq!(format_game_time("  10:30 AM "), "10:30am");
    assert_eq!(format_game_time("LIVE"), "live");
    assert_eq!(format_game_time("Final OT"), "Finalot");
    assert_eq!(format_game_time(""), "");
    assert_eq!(plain_time("Ends at ΣΑΣ"), "Ends atσας");
    // a stamp that does not end in Z is a plain time
    assert_eq!(format_game_time("2026-03-09T23:00"), "2026-03-09t23:00");
}

#[test]
fn texts_are_put_in_capitals() {
    assert_eq!(stamp_text(" 2026-03-09t23:00z\n"), "2026-03-09T23:00Z");
    assert_eq!(stamp_text("straße"), "STRASSE");
}

#[test]
fn parts_of_a_stamp() {
    assert_eq!(date_of_stamp("2026-03-10T00:00Z"), Some((2026, 3, 9)));
    assert_eq!(date_of_stamp("7:00 PM"), None);
    assert_eq!(date_text(2026, 3, 9), "3/9/2026");
    assert_eq!(date_text(-5, 12, 31), "12/31/-5");
    assert_eq!(short_date_of_stamp("2026-03-10T00:00Z"), "3/9/2026");
    assert_eq!(clock_of_stamp("2026-03-10T00:00Z"), Some("8:00pm".to_string()));
    assert_eq!(clock_of_stamp("2026-03-10T00:00"), None);
}

#[test]
fn stamps_that_cannot_be_read() {
    // no two characters after the colon
    assert!(!clock_fits("2026-03-09T23:0Z"));
    assert_eq!(try_format_game_time("2026-03-09T23:0Z"), None);
    // the second byte after the colon ends inside a character
    assert_eq!(try_format_game_time("2026-03-09T23:0éZ"), None);
    assert_eq!(try_format_game_time("2026-03-09T-2147483648:00Z"), None);
    assert!(!date_fits("2026-03-09T-2147483648:00Z"));
    assert_eq!(try_short_date_from_iso("2026-03-09T-2147483648:00Z"), None);
    assert_eq!(try_short_date_from_iso("-2147483648-01-01T00:00Z"), Some(String::new()));
    assert_eq!(try_short_date_from_iso("2026-03-09T23:00Z"), Some("3/9/2026".to_string()));
    assert_eq!(try_format_game_time("2026-03-09T23:00Z"), Some("7:00pm".to_string()));
}

#[test]
fn evenings_when_the_clocks_change() {
    // daylight time starts on 8 March 2026 at 07:00Z
    assert_eq!(short_date_from_iso("2026-03-08T04:30Z"), "3/7/2026");
    assert_eq!(format_game_time("2026-03-08T04:30Z"), "11:30pm");
    assert_eq!(format_game_time("2026-03-08T06:59Z"), "1:59am");
    assert_eq!(format_game_time("2026-03-08T07:00Z"), "3:00am");
    assert_eq!(short_date_from_iso("2026-03-08T05:00Z"), "3/8/2026");
    assert_eq!(format_game_time("2026-03-08T23:00Z"), "7:00pm");
    // it ends on 1 November 2026 at 06:00Z
    assert_eq!(format_game_time("2026-11-01T00:30Z"), "8:30pm");
    assert_eq!(short_date_from_iso("2026-11-01T00:30Z"), "10/31/2026");
    assert_eq!(format_game_time("2026-11-01T05:59Z"), "1:59am");
    assert_eq!(format_game_time("2026-11-01T06:00Z"), "1:00am");
    assert_eq!(short_date_from_iso("2026-11-01T04:00Z"), "11/1/2026");
    assert_eq!(format_game_time("2026-11-01T23:30Z"), "6:30pm");
    assert_eq!(short_date_from_iso("2026-11-02T04:59Z"), "11/1/2026");
}
