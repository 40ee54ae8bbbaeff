use nba_odds::results::{
    book_of, check_bet, settle, settle_due, settleable, stamp_block, tag_text, BetCheck, BetResult, ResultBook,
};

const BLOCK: &str = "Philadelphia 76ers               +390      24.2%     +18.6 PICK\n\
    Cleveland Cavaliers              -480      75.8%           -8.4";

fn summary(winner: &str) -> String {
    format!(
        "{{\"header\":{{\"competitions\":[{{\"status\":{{\"type\":{{\"completed\":true}}}},\
         \"competitors\":[{{\"winner\":true,\"team\":{{\"displayName\":\"{}\"}}}}]}}]}}}}",
        winner
    )
}

fn result(won: bool, gain: (u32, u32), amount: &str) -> BetResult {
    BetResult { won, gain, amount: amount.to_string() }
}

#[test]
fn settled_bets() {
    let s = settle(BLOCK, "Philadelphia 76ers").unwrap();
    assert!(s.won);
    assert_eq!(s.gain, (390, 1));
    let s = settle(BLOCK, "Cleveland Cavaliers").unwrap();
    assert!(!s.won);
    assert_eq!(s.gain, (0, 1));
    // either name may be cut short
    assert!(settle(BLOCK, "Philadelphia 76ers of 2026").unwrap().won);
    assert!(settle(BLOCK, "Phil").unwrap().won);
    assert!(settle("a\nb", "a").is_none());
    let s = settle("A B  +0 PICK", "A B  +0 PICK").unwrap();
    assert!(s.won);
    assert_eq!(s.gain, (0, 1));
}

#[test]
fn bets_that_cannot_be_settled() {
    assert!(settleable(BLOCK, "x"));
    let odd = "A B                        -2147483648 PICK";
    assert!(!settleable(odd, "A B"));
    assert!(settleable(odd, "C"));
    assert!(!settleable("aaaaaaaaaaaaaaaaaaaaaaaaaé +1 PICK", "x"));
    assert!(matches!(check_bet(odd, &summary("A B")), BetCheck::Unreadable));
}

#[test]
fn bets_are_checked_against_summaries() {
    match check_bet(BLOCK, &summary("Philadelphia 76ers")) {
        BetCheck::Decided(s) => assert!(s.won && s.gain == (390, 1)),
        _ => panic!("not decided"),
    }
    match check_bet(BLOCK, &summary("Cleveland Cavaliers")) {
        BetCheck::Decided(s) => assert!(!s.won),
        _ => panic!("not decided"),
    }
    assert!(matches!(check_bet(BLOCK, "{}"), BetCheck::Open));
    assert!(matches!(check_bet("no bet", &summary("x")), BetCheck::Open));
}

#[test]
fn tags_of_results() {
    assert_eq!(tag_text(true, "390.00"), "WON +$390.00");
    assert_eq!(tag_text(false, "0.00"), "LOST -$100.00");
}

#[test]
fn stamped_blocks() {
    let won = stamp_block(BLOCK, "WON +$390.00");
    let lines: Vec<&str> = won.lines().collect();
    assert!(lines[0].ends_with("+18.6 PICK WON +$390.00"));
    assert_eq!(lines[1], BLOCK.lines().nth(1).unwrap());
    assert_eq!(lines.len(), 2);
    assert_eq!(stamp_block("a\r\nb\n", "x"), "a\nb");
}

#[test]
fn stamping_again_replaces() {
    let won = stamp_block(BLOCK, "WON +$390.00");
    let lost = stamp_block(BLOCK, "LOST -$100.00");
    assert_eq!(stamp_block(&won, "WON +$390.00"), won);
    assert_eq!(stamp_block(&won, "LOST -$100.00"), lost);
    assert_eq!(stamp_block(&lost, "WON +$390.00"), won);
    // a line that ends in the word of a result loses it
    let odd = stamp_block("x PICK WON", "WON +$1.00");
    assert_eq!(odd, "x PICK WON WON +$1.00");
    assert_eq!(stamp_block(&odd, "WON +$1.00"), "x PICK WON +$1.00");
}

#[test]
fn stamped_bets_settle_the_same() {
    for tag in ["WON +$390.00", "LOST -$100.00"] {
        let block = stamp_block(BLOCK, tag);
        let s = settle(&block, "Philadelphia 76ers").unwrap();
        assert!(s.won);
        assert_eq!(s.gain, (390, 1));
        assert!(!settle(&block, "Cleveland Cavaliers").unwrap().won);
    }
}

#[test]
fn results_by_game() {
    let mut book = ResultBook::new();
    assert!(book.get("/a").is_none());
    assert_eq!(book.tally(), (0, 0));
    book.insert("/a".to_string(), result(true, (390, 1), "390.00"));
    book.insert("/b".to_string(), result(false, (0, 1), "0.00"));
    assert_eq!(book.tally(), (1, 1));
    book.insert("/a".to_string(), result(false, (0, 1), "0.00"));
    assert_eq!(book.tally(), (0, 2));
    assert_eq!(book.results().len(), 2);
    assert!(!book.get("/a").unwrap().won);
    assert!(book.get("/c").is_none());
}

#[test]
fn due_bets_are_settled() {
    let bet = |url: &str, block: &str| (url.to_string(), block.to_string());
    let due = vec![
        bet("/won", BLOCK),
        bet("/unknown", BLOCK),
        bet("/open", BLOCK),
        bet("/lost", BLOCK),
        bet("/no-pick", "a\nb"),
    ];
    let summaries = vec![
        Some(summary("Philadelphia 76ers")),
        None,
        Some("{}".to_string()),
        Some(summary("Cleveland Cavaliers")),
        Some(summary("a")),
    ];
    let settled = settle_due(&due, &summaries).unwrap();
    let shown: Vec<(&str, bool, (u32, u32))> =
        settled.iter().map(|(url, s)| (url.as_str(), s.won, s.gain)).collect();
    assert_eq!(shown, vec![("/won", true, (390, 1)), ("/lost", false, (0, 1))]);
    assert_eq!(settle_due(&Vec::new(), &Vec::new()).map(|v| v.len()), Some(0));
    let odd = vec![bet("/x", "A B                        -2147483648 PICK")];
    assert!(settle_due(&odd, &vec![Some(summary("A B"))]).is_none());
    assert!(settle_due(&odd, &vec![None]).is_some());
}

#[test]
fn books_of_settled_bets() {
    let bet = |url: &str, block: &str| (url.to_string(), block.to_string());
    let due = vec![bet("/a", BLOCK), bet("/b", BLOCK), bet("/a", BLOCK)];
    let summaries = vec![
        Some(summary("Philadelphia 76ers")),
        Some(summary("Philadelphia 76ers")),
        Some(summary("Cleveland Cavaliers")),
    ];
    let settled = settle_due(&due, &summaries).unwrap();
    let amounts = vec!["390.00".to_string(), "390.01".to_string(), "0.00".to_string()];
    let book = book_of(settled, amounts);
    assert_eq!(book.tally(), (1, 1));
    let a = book.get("/a").unwrap();
    assert_eq!((a.won, a.gain, a.amount.as_str()), (false, (0, 1), "0.00"));
    let b = book.get("/b").unwrap();
    assert_eq!((b.won, b.gain, b.amount.as_str()), (true, (390, 1), "390.01"));
    assert!(book.get("/c").is_none());
    assert_eq!(book_of(Vec::new(), Vec::new()).tally(), (0, 0));
}
