use nba_odds::model::{Ev, Forecast, Game, TeamOdds};
use nba_odds::records::{
    day_of_time, game_to_record, names_fit_rows, pick_ml_from_block, pick_team_fits,
    pick_team_from_block, picks_in,
};
use nba_odds::table::render_games;
use nba_odds::text::chars_of;

fn forecast(percent: &str, ev: Option<f64>) -> Option<Forecast> {
    Some(Forecast {
        percent: percent.to_string(),
        ev: ev.map(|v| Ev { bits: v.to_bits(), text: format!("{:+.1}", v) }),
    })
}

fn game(away: (&str, &str), home: (&str, &str), away_ev: f64, home_ev: f64) -> Game {
    Game {
        away: TeamOdds { name: away.0.to_string(), moneyline: away.1.to_string() },
        home: TeamOdds { name: home.0.to_string(), moneyline: home.1.to_string() },
        game_url: "/nba/game/_/gameId/401810786/76ers-cavaliers".to_string(),
        time: "Monday 3/9/2026 7:00pm".to_string(),
        away_predictor: forecast("24.2", Some(away_ev)),
        home_predictor: forecast("75.8", Some(home_ev)),
    }
}

fn pick() -> Game {
    game(("Philadelphia 76ers", "+390"), ("Cleveland Cavaliers", "-480"), 18.58, -8.41)
}

#[test]
fn record_of_a_pick() {
    let r = game_to_record(&pick());
    assert_eq!(r.day, "Monday 3/9/2026");
    assert_eq!(r.url, "/nba/game/_/gameId/401810786/76ers-cavaliers");
    assert_eq!(
        r.block,
        format!(
            "{:<26} {:>10} {:>10} {:>14}\n{:<26} {:>10} {:>10} {:>14}",
            "Philadelphia 76ers", "+390", "24.2%", "+18.6 PICK",
            "Cleveland Cavaliers", "-480", "75.8%", "-8.4",
        )
    );
    assert_eq!(r.picks, 1);
}

#[test]
fn only_away_teams_are_picked() {
    let both = game(("A B", "+390"), ("C D", "+200"), 12.0, 12.0);
    let r = game_to_record(&both);
    assert_eq!(r.picks, 1);
    let lines: Vec<&str> = r.block.lines().collect();
    assert!(lines[0].ends_with("+12.0 PICK"));
    assert!(lines[1].ends_with(" +12.0"));
    assert_eq!(game_to_record(&game(("A B", "+1"), ("C D", "+2"), 8.0, 9.0)).picks, 0);
    assert_eq!(game_to_record(&game(("A B", "+1"), ("C D", "+2"), 20.0, 9.0)).picks, 0);
}

#[test]
fn record_without_forecasts() {
    let mut g = pick();
    g.away_predictor = None;
    g.home_predictor = forecast("75.8", None);
    let r = game_to_record(&g);
    assert_eq!(
        r.block,
        format!(
            "{:<26} {:>10} {:>10} {:>14}\n{:<26} {:>10} {:>10} {:>14}",
            "Philadelphia 76ers", "+390", "-", "-", "Cleveland Cavaliers", "-480", "75.8%", "-",
        )
    );
    assert_eq!(r.picks, 0);
}

#[test]
fn long_names_are_cut() {
    let g = game(("The Very Long Name of a Team", "+390"), ("C D", "-480"), 10.0, 1.0);
    let r = game_to_record(&g);
    assert!(r.block.starts_with("The Very Long Name of a Te       +390"));
    assert_eq!(pick_team_from_block(&r.block).as_deref(), Some("The Very Long Name of a Te"));
    assert!(names_fit_rows(&g));
    let bad = game(("aaaaaaaaaaaaaaaaaaaaaaaaaé", "+1"), ("C D", "-1"), 1.0, 1.0);
    assert!(!names_fit_rows(&bad));
}

#[test]
fn days_of_times() {
    assert_eq!(day_of_time("Monday 3/9/2026 7:00pm"), "Monday 3/9/2026");
    assert_eq!(day_of_time("Tuesday 9:30pm"), "Tuesday");
    assert_eq!(day_of_time("7:00pm"), "7:00pm");
    assert_eq!(day_of_time(""), "");
    assert_eq!(day_of_time("Monday  3/9/2026"), "Monday");
    assert_eq!(day_of_time("a b/c"), "a b/c");
}

#[test]
fn bets_are_read_back() {
    let block = game_to_record(&pick()).block;
    assert!(pick_team_fits(&block));
    assert_eq!(pick_team_from_block(&block).as_deref(), Some("Philadelphia 76ers"));
    assert_eq!(pick_ml_from_block(&block).as_deref(), Some("+390"));
    let accented = game(("José Calderón United", "-260"), ("C D", "+1"), 10.0, 1.0);
    let block = game_to_record(&accented).block;
    assert_eq!(pick_team_from_block(&block).as_deref(), Some("José Calderón United"));
    assert_eq!(pick_ml_from_block(&block).as_deref(), Some("-260"));
}

#[test]
fn blocks_without_a_pick() {
    assert_eq!(pick_team_from_block("a\nb"), None);
    assert_eq!(pick_ml_from_block("a\nb"), None);
    assert_eq!(pick_team_from_block(""), None);
    assert_eq!(pick_ml_from_block("name 12.0% +8.5 PICK"), None);
    assert_eq!(pick_team_from_block("x PICK"), Some("x PICK".to_string()));
    assert!(!pick_team_fits("aaaaaaaaaaaaaaaaaaaaaaaaaé PICK"));
}

#[test]
fn picks_of_a_block() {
    assert_eq!(picks_in(&chars_of("")), 0);
    assert_eq!(picks_in(&chars_of("PICK PICK\nx\nUNPICKED")), 2);
}

#[test]
fn table_of_games() {
    let rule = "-".repeat(68);
    let expected = format!(
        "\n{rule}\n{:<26} {:>10} {:>10} {:>14}\n{rule}\n  Monday 3/9/2026 7:00pm\n{}\n{rule}\n\n1 game(s)\n\n",
        "Team", "ML", "Pred%", "EV", game_to_record(&pick()).block,
    );
    assert_eq!(render_games(&vec![pick()]), expected);
    assert_eq!(render_games(&Vec::new()), "No games found.\n");
    assert!(render_games(&vec![pick(), pick()]).ends_with("\n\n2 game(s)\n\n"));
}

#[test]
fn bets_are_read_back_behind_results() {
    let block = game_to_record(&pick()).block;
    for tag in ["", " WON +$390.00", " LOST -$100.00"] {
        let marked = block.replacen("PICK", &format!("PICK{}", tag), 1);
        assert_eq!(pick_team_from_block(&marked).as_deref(), Some("Philadelphia 76ers"));
        assert_eq!(pick_ml_from_block(&marked).as_deref(), Some("+390"));
    }
}

#[test]
fn names_of_several_lines() {
    let g = game(("Two\nLines", "+390"), ("C\nD", "-1"), 10.0, 10.0);
    let r = game_to_record(&g);
    assert_eq!(r.picks, 1);
    assert_eq!(pick_ml_from_block(&r.block).as_deref(), Some("+390"));
    // the name is read from the line of the pick alone
    assert_ne!(pick_team_from_block(&r.block).as_deref(), Some("Two\nLines"));
}
