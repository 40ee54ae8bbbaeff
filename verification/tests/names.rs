use nba_odds::names::{clean_team_name, cleanable, parse_ml};

#[test]
fn full_names_of_teams() {
    assert_eq!(clean_team_name("Denver NuggetsNuggetsDEN"), "Denver Nuggets");
    assert_eq!(clean_team_name("Philadelphia 76ers76ersPHI"), "Philadelphia 76ers");
    assert_eq!(clean_team_name("  LA ClippersClippersLAC "), "LA Clippers");
    assert_eq!(clean_team_name("Golden State WarriorsWarriorsGS"), "Golden State Warriors");
}

#[test]
fn names_that_are_not_repeated() {
    assert_eq!(clean_team_name("Denver Nuggets"), "Denver Nuggets");
    assert_eq!(clean_team_name("DEN"), "DEN");
    assert_eq!(clean_team_name(""), "");
    assert_eq!(clean_team_name("NuggetsNuggets"), "NuggetsNuggets");
    // the nickname has two words, and its last word does not start again
    assert_eq!(
        clean_team_name("Portland Trail BlazersTrail BlazersPOR"),
        "Portland Trail BlazersTrail BlazersPOR"
    );
}

#[test]
fn the_first_repeat_counts() {
    assert_eq!(clean_team_name("Team AArdvarksAArdvarks"), "Team A");
    assert_eq!(clean_team_name("a b b"), "a b");
    assert_eq!(clean_team_name("a bb"), "a b");
}

#[test]
fn names_that_cannot_be_cut() {
    assert!(cleanable("Denver NuggetsNuggetsDEN"));
    assert!(!cleanable("Dénver Nuggets"));
    assert!(cleanable("Denver NuggetsNuggetsDÉN"));
    assert!(cleanable(""));
}

#[test]
fn moneylines_of_links() {
    let link = |text: &str| ("https://draftkings.com/x".to_string(), text.to_string());
    assert_eq!(parse_ml(None), "-");
    assert_eq!(parse_ml(Some(&link(""))), "-");
    assert_eq!(parse_ml(Some(&link("  \n"))), "-");
    assert_eq!(parse_ml(Some(&link(" +390 "))), "+390");
    assert_eq!(parse_ml(Some(&link("-220"))), "-220");
}
