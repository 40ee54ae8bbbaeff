use nba_odds::summary::{
    extract_game_id, game_winner_name, result_url, summary_competition, summary_fits, summary_url,
    winner_name, Competition, Competitor,
};

fn summary(completed: &str, teams: &str) -> String {
    format!(
        "{{\"header\":{{\"competitions\":[{{\"status\":{{\"type\":{{\"completed\":{}}}}},\
         \"competitors\":{}}}]}}}}",
        completed, teams
    )
}

const TEAMS: &str = "[{\"winner\":false,\"team\":{\"displayName\":\"Cleveland Cavaliers\"}},\
    {\"winner\":true,\"team\":{\"displayName\":\"Philadelphia 76ers\"}}]";

fn competitor(winner: Option<bool>, name: Option<&str>) -> Competitor {
    Competitor { winner, name: name.map(str::to_string) }
}

#[test]
fn numbers_of_games() {
    assert_eq!(extract_game_id("/nba/game/_/gameId/401810786/76ers-cavaliers"), Some("401810786"));
    assert_eq!(extract_game_id("/nba/game/_/gameId/401810786"), Some("401810786"));
    assert_eq!(extract_game_id("/gameId//x"), Some(""));
    assert_eq!(extract_game_id("/gameId/"), Some(""));
    assert_eq!(extract_game_id("/gameId/gameId/1"), Some("gameId"));
    assert_eq!(extract_game_id("x/gameId/é/gameId/2"), Some("é"));
    assert_eq!(extract_game_id("/nba/game/401810786"), None);
    assert_eq!(extract_game_id(""), None);
}

#[test]
fn addresses_of_summaries() {
    assert_eq!(
        summary_url("401810786"),
        "https://site.api.espn.com/apis/site/v2/sports/basketball/nba/summary?event=401810786"
    );
    assert_eq!(
        result_url("/nba/game/_/gameId/401810786/x"),
        Some(
            "https://site.api.espn.com/apis/site/v2/sports/basketball/nba/summary?event=401810786"
                .to_string()
        )
    );
    assert_eq!(result_url("/nba/game"), None);
}

#[test]
fn winner_of_a_summary() {
    assert_eq!(
        game_winner_name(&summary("true", TEAMS)),
        Some("Philadelphia 76ers".to_string())
    );
    let first = "[{\"winner\":true,\"team\":{\"displayName\":\"A\"}},\
        {\"winner\":true,\"team\":{\"displayName\":\"B\"}}]";
    assert_eq!(game_winner_name(&summary("true", first)), Some("A".to_string()));
    let escaped = "[{\"winner\":true,\"team\":{\"displayName\":\"A\\u00e9\\n\"}}]";
    assert_eq!(game_winner_name(&summary("true", escaped)), Some("Aé\n".to_string()));
}

#[test]
fn no_winner() {
    assert!(summary_fits(""));
    assert_eq!(game_winner_name(&summary("false", TEAMS)), None);
    assert_eq!(game_winner_name(&summary("null", TEAMS)), None);
    assert_eq!(game_winner_name(&summary("\"true\"", TEAMS)), None);
    assert_eq!(game_winner_name(&summary("true", "[]")), None);
    assert_eq!(game_winner_name(&summary("true", "{}")), None);
    assert_eq!(game_winner_name(&summary("true", "[{\"winner\":1},5,null]")), None);
    // the first winner has no name
    let nameless = "[{\"winner\":true,\"team\":{}},\
        {\"winner\":true,\"team\":{\"displayName\":\"B\"}}]";
    assert_eq!(game_winner_name(&summary("true", nameless)), None);
    assert_eq!(game_winner_name("{}"), None);
    assert_eq!(game_winner_name("[]"), None);
    assert_eq!(game_winner_name("{\"header\":{\"competitions\":{\"0\":1}}}"), None);
    assert_eq!(game_winner_name("not json"), None);
    assert_eq!(game_winner_name(""), None);
}

#[test]
fn game_of_a_summary() {
    let value: serde_json::Value = serde_json::from_str(&summary("true", TEAMS)).unwrap();
    let game = summary_competition(&value).unwrap();
    assert_eq!(game.completed, Some(true));
    let teams = game.competitors.unwrap();
    assert_eq!(teams.len(), 2);
    assert_eq!(teams[0].winner, Some(false));
    assert_eq!(teams[0].name.as_deref(), Some("Cleveland Cavaliers"));
    assert_eq!(teams[1].winner, Some(true));
    assert!(summary_competition(&serde_json::Value::Null).is_none());
}

#[test]
fn winner_of_a_game() {
    let game = |completed, competitors| Competition { completed, competitors };
    let teams = || vec![competitor(None, Some("A")), competitor(Some(true), Some("B"))];
    assert_eq!(winner_name(&game(Some(true), Some(teams()))), Some("B".to_string()));
    assert_eq!(winner_name(&game(Some(false), Some(teams()))), None);
    assert_eq!(winner_name(&game(None, Some(teams()))), None);
    assert_eq!(winner_name(&game(Some(true), None)), None);
    assert_eq!(winner_name(&game(Some(true), Some(vec![competitor(Some(true), None)]))), None);
}
