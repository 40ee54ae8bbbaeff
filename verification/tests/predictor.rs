use nba_odds::odds_page::Element;
use nba_odds::predictor::{
    dom_percentages, extract_game_projections, first_two_percents, is_small_deviation, page_url,
    percentages_of, predictor_fits, read_predictor, try_extract_game_projections,
    try_read_predictor, Prediction, HUNDRED_BITS, ONE_BITS,
};

const SHOWN: &str = "<div class=\"matchupPredictor__teamValue a\"><div>24.2<div \
    class=\"matchupPredictor__suffix\">%</div></div></div><div \
    class=\"matchupPredictor__teamValue b\"><div> 75.8 <div \
    class=\"matchupPredictor__suffix\">%</div></div></div>";

fn bits(values: &[f32]) -> Vec<u32> {
    values.iter().map(|v| v.to_bits()).collect()
}

#[test]
fn addresses_of_game_pages() {
    assert_eq!(page_url("/nba/game/x"), "https://www.espn.com/nba/game/x");
    assert_eq!(page_url("https://www.espn.com/nba/game/x"), "https://www.espn.com/nba/game/x");
    assert_eq!(page_url("http://x"), "http://x");
    assert_eq!(page_url(""), "https://www.espn.com");
}

#[test]
fn projections_of_a_page() {
    let html = "{\"gameProjection\":\"24.2\",\"x\":1},{\"gameProjection\":\"75.8\"},\
        {\"gameProjection\":\"1\"}";
    assert_eq!(extract_game_projections(html), vec!["24.2", "75.8"]);
    assert!(extract_game_projections("").is_empty());
    let html = "\"gameProjection\":\"n/a\" \"gameProjection\":\"60.1\" end";
    assert_eq!(extract_game_projections(html), vec!["60.1"]);
    // no closing quotation mark
    assert!(extract_game_projections("\"gameProjection\":\"24.2").is_empty());
}

#[test]
fn projections_that_are_cut_off() {
    assert_eq!(try_extract_game_projections("\"gameProjection\":\""), None);
    assert_eq!(try_extract_game_projections("\"gameProjection\":\"é\""), None);
    assert_eq!(
        try_extract_game_projections("\"gameProjection\":\"1\" \"gameProjection\":\"2"),
        Some(vec!["1".to_string()])
    );
}

#[test]
fn percentages_of_a_page() {
    assert_eq!(dom_percentages(SHOWN), vec!["24.2", "75.8"]);
    assert!(dom_percentages("<p>24.2%</p>").is_empty());
}

#[test]
fn percentages_of_elements() {
    let sign = |parent: Option<&str>| Element {
        attribute: None,
        text: "%".to_string(),
        parent_text: parent.map(str::to_string),
    };
    let signs = vec![sign(Some("24.2%")), sign(None), sign(Some("n/a %")), sign(Some(" % 75.8%% "))];
    assert_eq!(percentages_of(&signs), vec!["24.2", "75.8"]);
}

#[test]
fn percents_lie_between_zero_and_hundred() {
    let values = bits(&[0.0, -3.0, 100.0, f32::NAN, f32::INFINITY, 24.2, 150.0, 75.8, 50.0]);
    let found = first_two_percents(&values).map(|(a, b)| (f32::from_bits(a), f32::from_bits(b)));
    assert_eq!(found, Some((24.2, 75.8)));
    assert_eq!(first_two_percents(&bits(&[24.2, 100.0])), None);
    assert_eq!(first_two_percents(&Vec::new()), None);
    assert_eq!(HUNDRED_BITS, 100.0f32.to_bits());
    assert_eq!(ONE_BITS, 1.0f32.to_bits());
}

#[test]
fn sums_that_are_about_hundred() {
    for v in [0.0f32, 0.1, 0.999, 1.0, 1.001, 50.0, f32::INFINITY, f32::NAN] {
        assert_eq!(is_small_deviation(v.to_bits()), v < 1.0, "{}", v);
    }
}

#[test]
fn predictions() {
    let html = "\"gameProjection\":\"24.2\" \"gameProjection\":\"75.8\" ";
    match read_predictor(html) {
        Prediction::Projected(a, b) => assert_eq!((a.as_str(), b.as_str()), ("24.2", "75.8")),
        Prediction::Shown(_) => panic!("projections were not taken"),
    }
    let html = format!("\"gameProjection\":\"24.2\" {}", SHOWN);
    match read_predictor(&html) {
        Prediction::Projected(..) => panic!("one projection is not enough"),
        Prediction::Shown(v) => assert_eq!(v, vec!["24.2", "75.8"]),
    }
}

#[test]
fn predictors_that_can_be_read() {
    assert!(predictor_fits(SHOWN));
    assert!(predictor_fits(""));
    assert!(!predictor_fits("\"gameProjection\":\""));
    assert!(try_read_predictor("\"gameProjection\":\"").is_none());
    match try_read_predictor(SHOWN) {
        Some(Prediction::Shown(v)) => assert_eq!(v, vec!["24.2", "75.8"]),
        _ => panic!("not read"),
    }
    match try_read_predictor("\"gameProjection\":\"1\",\"gameProjection\":\"2\"") {
        Some(Prediction::Projected(a, b)) => assert_eq!((a.as_str(), b.as_str()), ("1", "2")),
        _ => panic!("not read"),
    }
}

#[test]
fn first_two_numbers_between_marks() {
    let mark = "\"gameProjection\":\"";
    let html = format!("{mark}x\" {mark}-1.5\" {mark}\" {mark}7e1\" {mark}9\"");
    assert_eq!(extract_game_projections(&html), vec!["-1.5", "7e1"]);
    // a mark right after another one, or one that shares its quotation mark, is passed over
    let html = format!("{mark}{mark}5\" end");
    assert!(extract_game_projections(&html).is_empty());
    let html = format!("{}{}5\" end", mark, &mark[1..]);
    assert!(extract_game_projections(&html).is_empty());
}
