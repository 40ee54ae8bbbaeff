use nba_odds::odds_page::{
    assemble_games, game_time_label, link_fits, links_fit, page_fits, parse_odds, try_parse_odds,
    Element,
};

fn team(name: &str) -> String {
    format!("<a href=\"/nba/team/_/name/x\"><img><span>{}</span></a>", name)
}

fn bets(texts: [&str; 6]) -> String {
    texts
        .iter()
        .map(|t| format!("<a href=\"https://sportsbook.draftkings.com/b\"><div>{}</div></a>", t))
        .collect()
}

fn game(href: &str, time: &str) -> String {
    format!("<a data-game-link=\"true\" href=\"{}\">{}</a>", href, time)
}

fn page() -> String {
    let mut html = String::from("<html><body>Monday, March 9");
    html += &game("/nba/game/_/gameId/401810786/76ers-cavaliers", " 2026-03-09T23:00Z ");
    html += &team("Philadelphia 76ers76ersPHI");
    html += &team("PHI");
    html += &team("Cleveland CavaliersCavaliersCLE");
    html += &bets(["+9.5 -110", "o230 -110", "+390", "-9.5 -110", "u230 -110", "-520"]);
    html += "Tuesday, March 10";
    html += &game("/nba/game/_/gameId/401810787/nuggets-suns", "9:30 PM");
    html += &team("Denver NuggetsNuggetsDEN");
    html += &team("Phoenix SunsSunsPHX");
    html += &bets(["+1", "o1", " ", "-1", "u1", "OFF"]);
    html += "Wednesday, March 11</body></html>";
    html
}

fn element(attribute: Option<&str>, text: &str) -> Element {
    Element {
        attribute: attribute.map(str::to_string),
        text: text.to_string(),
        parent_text: None,
    }
}

#[test]
fn games_of_a_page() {
    let games = parse_odds(&page());
    assert_eq!(games.len(), 2);
    assert_eq!(games[0].away.name, "Philadelphia 76ers");
    assert_eq!(games[0].away.moneyline, "+390");
    assert_eq!(games[0].home.name, "Cleveland Cavaliers");
    assert_eq!(games[0].home.moneyline, "-520");
    assert_eq!(games[0].game_url, "/nba/game/_/gameId/401810786/76ers-cavaliers");
    assert_eq!(games[0].time, "Monday 3/9/2026 7:00pm");
    assert!(games[0].away_predictor.is_none());
    assert!(games[0].home_predictor.is_none());
    assert_eq!(games[1].away.name, "Denver Nuggets");
    assert_eq!(games[1].away.moneyline, "-");
    assert_eq!(games[1].home.name, "Phoenix Suns");
    assert_eq!(games[1].home.moneyline, "OFF");
    assert_eq!(games[1].time, "Tuesday 9:30pm");
    assert!(games.iter().all(|g| g.away.name.contains(' ') && g.home.name.contains(' ')));
}

#[test]
fn a_page_without_games() {
    assert!(page_fits(""));
    assert!(parse_odds("").is_empty());
    assert!(parse_odds("<p>Monday, nothing</p>").is_empty());
    assert_eq!(try_parse_odds("").map(|g| g.len()), Some(0));
}

#[test]
fn pages_that_cannot_be_read() {
    assert_eq!(try_parse_odds(&page()).map(|g| g.len()), Some(2));
    let mut html = team("Dénver Nuggets");
    assert!(try_parse_odds(&html).is_none());
    html = game("/x", "2026-03-09T23:0Z");
    assert!(try_parse_odds(&html).is_none());
    html = game("/x", "2026-13-09T23:00Z");
    assert!(try_parse_odds(&html).is_none());
    // a link without an address is left out
    html = String::from("<a data-game-link='true'>2026-13-09T23:00Z</a>");
    assert_eq!(try_parse_odds(&html).map(|g| g.len()), Some(0));
}

#[test]
fn day_of_a_game() {
    // the date decides, not the heading
    assert_eq!(
        game_time_label("Sunday, /g", "/g", "2026-03-10T01:00Z"),
        "Monday 3/9/2026 9:00pm"
    );
    // without a date the last heading before the link does
    assert_eq!(game_time_label("Sunday, Friday, /g Monday,", "/g", "7:00 PM"), "Friday 7:00pm");
    assert_eq!(game_time_label("/g Monday,", "/g", "7:00 PM"), "7:00pm");
    assert_eq!(game_time_label("Monday, x", "/g", "7:00 PM"), "7:00pm");
    assert_eq!(game_time_label("Saturday,/g", "/g", ""), "Saturday");
}

#[test]
fn links_that_can_be_read() {
    assert!(link_fits("2026-03-09T23:00Z"));
    assert!(link_fits("7:00 PM"));
    assert!(!link_fits("2026-00-09T23:00Z"));
    assert!(!link_fits("2026-13-09T23:00Z"));
    assert!(!link_fits("2026-03-09T23:Z"));
}

#[test]
fn games_end_with_the_names() {
    let teams = vec![
        element(None, "A BB1"),
        element(None, "C DD2"),
        element(None, "E FF3"),
        element(None, "lonely"),
    ];
    let bets = vec![element(None, "1"), element(None, "2"), element(None, "+100")];
    let links = vec![element(Some("/one"), "7:00 PM"), element(None, "x"), element(Some("/two"), "")];
    assert!(links_fit(&teams, &links));
    let games = assemble_games("", &teams, &bets, &links);
    assert_eq!(games.len(), 1);
    assert_eq!(games[0].away.name, "A B");
    assert_eq!(games[0].home.name, "C D");
    assert_eq!(games[0].away.moneyline, "+100");
    assert_eq!(games[0].home.moneyline, "-");
    assert_eq!(games[0].game_url, "/one");
    assert_eq!(games[0].time, "7:00pm");
}
