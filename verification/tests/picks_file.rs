use nba_odds::ledger::{headings_fit, load_records, parse_section_date};
use nba_odds::model::{Ev, Forecast, Game, TeamOdds};
use nba_odds::odds_page::game_time_label;
use nba_odds::picks_file::{
    add_games, bets_to_check, new_games_fit, ordered_days, picks_fit, picks_of, profit_label,
    render_picks, saved_file, stamp_records,
};
use nba_odds::records::{day_of_time, Record};
use nba_odds::results::{book_of, settle_due, BetResult, ResultBook};

const NOON: u64 = 1_773_057_600; // 2026-03-09, 12:00 UTC

fn game(url: &str, time: &str, away: &str, ev: f64) -> Game {
    let forecast = |percent: &str, v: f64| {
        Some(Forecast {
            percent: percent.to_string(),
            ev: Some(Ev { bits: v.to_bits(), text: format!("{:+.1}", v) }),
        })
    };
    Game {
        away: TeamOdds { name: away.to_string(), moneyline: "+390".to_string() },
        home: TeamOdds { name: "Cleveland Cavaliers".to_string(), moneyline: "-480".to_string() },
        game_url: url.to_string(),
        time: time.to_string(),
        away_predictor: forecast("24.2", ev),
        home_predictor: forecast("75.8", -8.4),
    }
}

fn games() -> Vec<Game> {
    vec![
        game("/gameId/1", "Sunday 3/8/2026 7:00pm", "Philadelphia 76ers", 18.58),
        game("/gameId/2", "Monday 3/9/2026 7:00pm", "Denver Nuggets", 2.0),
        game("", "Monday 3/9/2026 8:00pm", "Phoenix Suns", 10.0),
        game("/gameId/3", "Sunday 3/8/2026 9:00pm", "Utah Jazz", 9.0),
    ]
}

fn record(day: &str, url: &str, picks: usize) -> Record {
    Record { day: day.to_string(), url: url.to_string(), block: "x".to_string(), picks }
}

fn shown(records: &[Record]) -> Vec<(&str, &str, &str, usize)> {
    records
        .iter()
        .map(|r| (r.day.as_str(), r.url.as_str(), r.block.as_str(), r.picks))
        .collect()
}

fn book() -> ResultBook {
    let mut book = ResultBook::new();
    let amount = "390.00".to_string();
    book.insert("/gameId/1".to_string(), BetResult { won: true, gain: (390, 1), amount });
    book.insert(
        "/gameId/3".to_string(),
        BetResult { won: false, gain: (0, 1), amount: "0.00".to_string() },
    );
    book
}

#[test]
fn dates_of_sections() {
    assert_eq!(parse_section_date("Monday 3/9/2026"), Some((3, 9, 2026)));
    assert_eq!(parse_section_date("  x   1/2/-3  y"), Some((1, 2, -3)));
    assert_eq!(parse_section_date("Monday"), None);
    assert_eq!(parse_section_date("3/9/2026"), None);
    assert_eq!(parse_section_date("Monday 3/9"), None);
    assert_eq!(parse_section_date("Monday 3/9/26/1"), None);
    assert_eq!(parse_section_date("Monday -3/9/2026"), None);
    assert_eq!(parse_section_date(""), None);
}

#[test]
fn games_are_added_once() {
    assert!(new_games_fit(&Vec::new(), &games()));
    let (all, added) = add_games(Vec::new(), &games());
    assert_eq!(added, 3);
    assert_eq!(all.len(), 3);
    assert_eq!(all[0].url, "/gameId/1");
    assert_eq!(all[2].url, "/gameId/3");
    let (again, more) = add_games(all, &games());
    assert_eq!(more, 0);
    assert_eq!(again.len(), 3);
    let bad = vec![game("/x", "t", "aaaaaaaaaaaaaaaaaaaaaaaaaé", 1.0)];
    assert!(!new_games_fit(&Vec::new(), &bad));
    assert!(new_games_fit(&vec![record("d", "/x", 0)], &bad));
}

#[test]
fn games_with_one_address_are_added_once() {
    let twice = vec![
        game("/g", "Monday 3/9/2026 7:00pm", "Philadelphia 76ers", 18.58),
        game("/h", "Monday 3/9/2026 7:00pm", "Utah Jazz", 1.0),
        game("/g", "Monday 3/9/2026 9:00pm", "Denver Nuggets", 2.0),
        game("/g", "t", "aaaaaaaaaaaaaaaaaaaaaaaaaé", 1.0),
    ];
    assert!(new_games_fit(&Vec::new(), &twice));
    let (all, added) = add_games(Vec::new(), &twice);
    assert_eq!(added, 2);
    let urls: Vec<&str> = all.iter().map(|r| r.url.as_str()).collect();
    assert_eq!(urls, vec!["/g", "/h"]);
    assert!(all[0].block.starts_with("Philadelphia 76ers "));
    let (all, added) = add_games(vec![record("d", "/h", 0)], &twice);
    assert_eq!(added, 1);
    assert_eq!(all.len(), 2);
}

#[test]
fn recent_picks_are_due() {
    let records = vec![
        record("Monday 3/9/2026", "/today", 1),
        record("Monday 3/9/2026", "/none", 0),
        record("Monday 2/23/2026", "/old", 1),
        record("Sunday 2/22/2026", "/too-old", 1),
        record("Tuesday 3/10/2026", "/future", 1),
        record("Monday", "/undated", 1),
    ];
    let due = bets_to_check(&records, NOON);
    let urls: Vec<&str> = due.iter().map(|b| b.0.as_str()).collect();
    assert_eq!(urls, vec!["/today", "/old"]);
    assert_eq!(due[0].1, "x");
}

#[test]
fn days_come_latest_first() {
    let records = vec![
        record("Sunday 3/8/2026", "/1", 0),
        record("Tuesday", "/2", 0),
        record("Monday 3/9/2026", "/3", 0),
        record("Sunday 3/8/2026", "/4", 0),
        record("Friday", "/5", 0),
        record("Wednesday 12/31/2025", "/6", 0),
    ];
    assert_eq!(
        ordered_days(&records),
        vec!["Monday 3/9/2026", "Sunday 3/8/2026", "Wednesday 12/31/2025", "Tuesday", "Friday"]
    );
    assert_eq!(picks_of(&records), 0);
}

#[test]
fn text_of_the_file() {
    let (all, _) = add_games(Vec::new(), &games());
    assert_eq!(picks_of(&all), 2);
    let blocks: Vec<String> = all.iter().map(|r| r.block.clone()).collect();
    let file = render_picks(&all, 3, 2, "+$840.00");
    let expected = format!(
        "Total PICKs: 2 | Won: 3 | Lost: 2 | Profit: +$840.00\n\
         \n=== Monday 3/9/2026 ===\n[/gameId/2]\n{}\n\n\
         \n=== Sunday 3/8/2026 ===\n[/gameId/1]\n{}\n\n[/gameId/3]\n{}",
        blocks[1], blocks[0], blocks[2],
    );
    assert_eq!(file, expected);
}

#[test]
fn the_file_reads_back() {
    let (all, _) = add_games(Vec::new(), &games());
    let file = render_picks(&all, 0, 0, "+$0.00");
    assert!(headings_fit(&file));
    let loaded = load_records(&file);
    let before = shown(&all);
    assert_eq!(shown(&loaded), vec![before[1], before[0], before[2]]);
    assert_eq!(render_picks(&loaded, 0, 0, "+$0.00"), file);
}

#[test]
fn results_are_stamped_and_kept() {
    let (all, _) = add_games(Vec::new(), &games());
    let file = saved_file(all, &book(), "+$290.00");
    assert!(file.starts_with("Total PICKs: 2 | Won: 1 | Lost: 1 | Profit: +$290.00\n"));
    assert!(file.contains("+18.6 PICK WON +$390.00\n"));
    assert!(file.contains("+9.0 PICK LOST -$100.00\n"));
    let loaded = load_records(&file);
    assert_eq!(loaded.len(), 3);
    assert_eq!(picks_of(&loaded), 2);
    let (again, added) = add_games(loaded, &games());
    assert_eq!(added, 0);
    assert_eq!(saved_file(again, &book(), "+$290.00"), file);
    let (again, added) = add_games(load_records(&file), &Vec::new());
    assert_eq!(added, 0);
    assert_eq!(saved_file(again, &book(), "+$290.00"), file);
}

#[test]
fn records_without_a_result_stay() {
    let stamped = stamp_records(vec![record("d", "/x", 0)], &book());
    assert_eq!(shown(&stamped), vec![("d", "/x", "x", 0)]);
}

#[test]
fn reading_a_file_by_hand() {
    let content = "Total PICKs: 1\nloose line\n\n=== Monday ===\n\nlost line\n[/a]\r\nline one PICK\r\n\
        \n  \nline two\n[/empty]\n[/b]\nonly\n=== Tuesday 3/10/2026 ===\nignored\n[]\nnone\n[/c]\nlast";
    assert!(headings_fit(content));
    let records = load_records(content);
    assert_eq!(
        shown(&records),
        vec![
            ("Monday", "/a", "line one PICK\nline two", 1),
            ("Monday", "/b", "only", 0),
            ("Tuesday 3/10/2026", "/c", "last", 0),
        ]
    );
    assert!(load_records("").is_empty());
    // a carriage return more than a line end takes
    let odd = load_records("[/a]\nx PICK\r\r\ny\r");
    assert_eq!(shown(&odd), vec![("", "/a", "x PICK\r\ny\r", 1)]);
}

#[test]
fn records_that_were_read_can_be_kept() {
    let content = "x\n=== Monday ===\n[/a]\none   \ntwo PICK WON +$1.00\n=== Friday 1/2/2026 ===\n\
        [/b]\n\tonly\n";
    let records = load_records(content);
    let file = render_picks(&records, 1, 0, "+$1.00");
    let again = load_records(&file);
    let before = shown(&records);
    assert_eq!(shown(&again), vec![before[1], before[0]]);
    assert_eq!(render_picks(&again, 1, 0, "+$1.00"), file);
}

#[test]
fn white_space_at_the_end_of_the_file_is_lost() {
    let records = load_records("=== Monday ===\n[/a]\none  \n[/b]\ntwo  \n");
    assert_eq!(records[1].block, "two  ");
    let again = load_records(&render_picks(&records, 0, 0, "+$0.00"));
    assert_eq!(again[0].block, "one  ");
    assert_eq!(again[1].block, "two");
    // and the file stays the same from then on
    let file = render_picks(&records, 0, 0, "+$0.00");
    assert_eq!(render_picks(&load_records(&file), 0, 0, "+$0.00"), file);
}

#[test]
fn days_of_games_read_back() {
    for (raw, date) in [
        ("2026-03-10T01:00Z", (3, 9, 2026)),
        ("2026-01-01T03:00Z", (12, 31, 2025)),
        ("2024-02-29T23:00Z", (2, 29, 2024)),
        ("-5-7-1T", (0, 0, 0)),
    ] {
        let day = day_of_time(&game_time_label("", "", raw));
        if date.0 > 0 {
            assert_eq!(parse_section_date(&day), Some(date), "{}", raw);
        } else {
            assert_eq!(parse_section_date(&day), None, "{}", raw);
        }
    }
}

#[test]
fn headings_without_room() {
    assert!(!headings_fit("x\n=== ===\n"));
    assert!(headings_fit("=== === x"));
    assert!(headings_fit("===  ==="));
    assert_eq!(load_records("===  ===\n[/a]\nx")[0].day, "");
}

#[test]
fn labels_of_profits() {
    assert_eq!(profit_label(false, "840.00"), "+$840.00");
    assert_eq!(profit_label(true, "100.00"), "-$100.00");
}

#[test]
fn totals_that_fit() {
    assert!(picks_fit(&Vec::new()));
    assert!(picks_fit(&vec![record("d", "/x", usize::MAX), record("d", "/y", 0)]));
    assert!(!picks_fit(&vec![record("d", "/x", usize::MAX), record("d", "/y", 1)]));
}

/// One run: the results of the bets that are due, by the winner of each game, and the file.
fn run(records: Vec<Record>, winners: &[(&str, &str)]) -> String {
    let due = bets_to_check(&records, NOON);
    let summaries: Vec<Option<String>> = due
        .iter()
        .map(|(url, _)| {
            winners.iter().find(|w| w.0 == url).map(|w| {
                format!(
                    "{{\"header\":{{\"competitions\":[{{\"status\":{{\"type\":{{\"completed\":true}}}},\
                     \"competitors\":[{{\"winner\":true,\"team\":{{\"displayName\":\"{}\"}}}}]}}]}}}}",
                    w.1
                )
            })
        })
        .collect();
    let settled = settle_due(&due, &summaries).unwrap();
    let amounts: Vec<String> =
        settled.iter().map(|(_, s)| format!("{}.00", s.gain.0 / s.gain.1)).collect();
    saved_file(records, &book_of(settled, amounts), "+$290.00")
}

#[test]
fn the_same_answers_keep_the_file() {
    let winners = [("/gameId/1", "Philadelphia 76ers"), ("/gameId/3", "Cleveland Cavaliers")];
    let (all, _) = add_games(Vec::new(), &games());
    let file = run(all, &winners);
    assert!(file.starts_with("Total PICKs: 2 | Won: 1 | Lost: 1 | Profit: +$290.00\n"));
    assert!(file.contains("+18.6 PICK WON +$390.00\n"));
    for more in [games(), Vec::new()] {
        let (all, added) = add_games(load_records(&file), &more);
        assert_eq!(added, 0);
        assert_eq!(run(all, &winners), file);
    }
}
