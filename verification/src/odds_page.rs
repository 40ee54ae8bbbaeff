//! The odds page: which games it lists, with their teams, moneylines and starting times.

use vstd::prelude::*;

use crate::calendar::{day_of_week, is_date, law_prev_day_steps_back_one_day, weekday};
use crate::ledger::{lemma_date_reads_back, lemma_day_name};
use crate::model::{game_views, Game, GameView, TeamOdds, TeamOddsView};
use crate::names::{can_clean, clean_team_name, cleanable, cleaned, moneyline_of, parse_ml};
use crate::numbers::numeral_value;
use crate::schedule::{
    all_ascii, ascii_capitals, ascii_game_clock, clock_fits, clock_in_range, date_fits,
    date_in_range, date_of_stamp, date_text, eastern_date, format_game_time, game_clock, is_stamp,
    law_stamps_are_read, law_stamps_can_be_read, show_date, stamp_of, stamp_parts, stamp_text,
    uppercase,
};
use crate::text::{
    chars_of, extend_str, find, find_text, is_space, occurs_at, string_of, strings, text_occurs_at,
    trim, trim_of, words,
};
use crate::text_facts::{
    law_pattern_stands_whole, law_trim_takes_white_space_alone, lemma_one_word, lemma_words_concat,
    lemma_words_space_after, lemma_words_space_before,
};

verus! {

/// An element of an HTML page: the attribute that was asked for, the text inside it, and the text
/// inside the element around it.
pub struct Element {
    pub attribute: Option<String>,
    pub text: String,
    pub parent_text: Option<String>,
}

pub struct ElementView {
    pub attribute: Option<Seq<char>>,
    pub text: Seq<char>,
    pub parent_text: Option<Seq<char>>,
}

/// The contents of a string that may be missing.
pub open spec fn string_view(s: Option<String>) -> Option<Seq<char>> {
    match s {
        Some(s) => Some(s@),
        None => None,
    }
}

impl View for Element {
    type V = ElementView;

    open spec fn view(&self) -> ElementView {
        ElementView {
            attribute: string_view(self.attribute),
            text: self.text@,
            parent_text: string_view(self.parent_text),
        }
    }
}

/// The contents of a list of elements.
pub open spec fn element_views(v: Seq<Element>) -> Seq<ElementView> {
    v.map_values(|e: Element| e@)
}

/// The most characters that a page may have to be parsed: it then takes less than 2 to the 31
/// bytes, and so does each text in it.
pub const PAGE_LIMIT: usize = 0x1fff_ffff;

/// Tells whether a page is short enough to be parsed.
pub fn page_fits(html: &str) -> (r: bool)
    ensures
        r == (html@.len() <= PAGE_LIMIT),
{
    chars_of(html).len() <= PAGE_LIMIT
}

/// The selectors of the elements that are looked up in a page.
pub open spec fn is_page_selector(selector: Seq<char>) -> bool {
    ||| selector == "a[data-game-link='true']"@
    ||| selector == "a[href*='/nba/team/']"@
    ||| selector == "a[href*='draftkings.com']"@
    ||| selector == ".matchupPredictor__suffix"@
}

/// The elements of a page that a CSS selector picks, with the named attribute, as the crate
/// `scraper` finds them.
pub uninterp spec fn selected(
    html: Seq<char>,
    selector: Seq<char>,
    attribute: Seq<char>,
) -> Seq<ElementView>;

/// `scraper::Html::select` on the document that `scraper::Html::parse_document` builds, each
/// element handed out as plain values: the attribute by `scraper::node::Element::attr`, the text
/// nodes below it by `scraper::ElementRef::text`, and the same of its parent where that is an
/// element.
///
/// Claimed: the elements depend on the page, the selector and the name of the attribute alone. The
/// selector is one of four, each of which `scraper::Selector::parse` accepts. The parser keeps
/// texts in buffers whose length is a number of 32 bits and panics where one grows past 2 to the 31
/// bytes, so longer pages are left out.
#[verifier::external_body]
pub(crate) fn select_elements(html: &str, selector: &str, attribute: &str) -> (r: Vec<Element>)
    requires
        is_page_selector(selector@),
        html@.len() <= PAGE_LIMIT,
    ensures
        element_views(r@) == selected(html@, selector@, attribute@),
{
    let wanted = scraper::Selector::parse(selector).unwrap();
    let document = scraper::Html::parse_document(html);
    document.select(&wanted).map(|el| Element {
        attribute: el.value().attr(attribute).map(str::to_string),
        text: el.text().collect(),
        parent_text: el.parent().and_then(scraper::ElementRef::wrap).map(|p| p.text().collect()),
    }).collect()
}

/// The names of the days, 0 for Sunday to 6 for Saturday.
pub open spec fn day_name(day: int) -> Seq<char> {
    if day == 0 {
        "Sunday"@
    } else if day == 1 {
        "Monday"@
    } else if day == 2 {
        "Tuesday"@
    } else if day == 3 {
        "Wednesday"@
    } else if day == 4 {
        "Thursday"@
    } else if day == 5 {
        "Friday"@
    } else {
        "Saturday"@
    }
}

/// The heading of a day, such as `Monday, March 9`, starts at position `p`.
pub open spec fn heading_at(html: Seq<char>, p: int, day: int) -> bool {
    occurs_at(html, p, day_name(day) + ","@)
}

/// The first day, from `day` on, whose heading starts at position `p`; 7 where none does.
pub open spec fn day_at(html: Seq<char>, p: int, day: int) -> int
    decreases 7 - day,
{
    if day >= 7 || heading_at(html, p, day) {
        day
    } else {
        day_at(html, p, day + 1)
    }
}

/// The day of the last heading that starts before position `p`; nothing where there is none.
pub open spec fn last_heading(html: Seq<char>, p: int) -> Seq<char>
    decreases p,
{
    if p <= 0 {
        Seq::empty()
    } else if day_at(html, p - 1, 0) < 7 {
        day_name(day_at(html, p - 1, 0))
    } else {
        last_heading(html, p - 1)
    }
}

/// Where `link` first stands in the page, or its start.
pub open spec fn link_position(html: Seq<char>, link: Seq<char>) -> int {
    match find(html, link) {
        Some(p) => p,
        None => 0,
    }
}

/// The starting time of a game: the day of the week, the date and the time in Eastern time. Where
/// `raw`, the text of the game's link, holds no date, it is the heading before the link and the
/// time.
pub open spec fn starting_time(html: Seq<char>, link: Seq<char>, raw: Seq<char>) -> Seq<char> {
    let up = uppercase(trim(raw));
    let clock = game_clock(trim(raw), up);
    match eastern_date(up) {
        Some(date) => trim(
            day_name(weekday(date.0, date.1, date.2)) + " "@ + show_date(date) + " "@ + clock,
        ),
        None => trim(last_heading(html, link_position(html, link)) + " "@ + clock),
    }
}

/// `starting_time` where `raw` is a text of ASCII characters.
pub open spec fn ascii_starting_time(
    html: Seq<char>,
    link: Seq<char>,
    raw: Seq<char>,
) -> Seq<char> {
    let clock = ascii_game_clock(trim(raw));
    match eastern_date(ascii_capitals(trim(raw))) {
        Some(date) => trim(
            day_name(weekday(date.0, date.1, date.2)) + " "@ + show_date(date) + " "@ + clock,
        ),
        None => trim(last_heading(html, link_position(html, link)) + " "@ + clock),
    }
}

/// The month of a date is one that the calendar has.
pub open spec fn month_exists(up: Seq<char>) -> bool {
    eastern_date(up) matches Some(date) ==> 1 <= date.1 <= 12
}

/// The text of a game's link can be read.
pub open spec fn link_readable(raw: Seq<char>) -> bool {
    let up = uppercase(trim(raw));
    date_in_range(up) && clock_in_range(up) && month_exists(up)
}

/// The names of the teams: of the team links, those whose cleaned text holds a blank.
pub open spec fn team_names(links: Seq<ElementView>) -> Seq<Seq<char>>
    decreases links.len(),
{
    if links.len() == 0 {
        Seq::empty()
    } else {
        let name = cleaned(links.last().text);
        let before = team_names(links.drop_last());
        if name.contains(' ') {
            before.push(name)
        } else {
            before
        }
    }
}

/// The addresses and the trimmed texts of the game links that have an address.
pub open spec fn game_refs(links: Seq<ElementView>) -> Seq<(Seq<char>, Seq<char>)>
    decreases links.len(),
{
    if links.len() == 0 {
        Seq::empty()
    } else {
        let before = game_refs(links.drop_last());
        match links.last().attribute {
            Some(link) => before.push((link, trim(links.last().text))),
            None => before,
        }
    }
}

/// The trimmed text of the betting link at a position.
pub open spec fn bet_text(links: Seq<ElementView>, i: int) -> Option<Seq<char>> {
    if i < links.len() {
        Some(trim(links[i].text))
    } else {
        None
    }
}

/// The games of a page, in order. The team names come in pairs, the away team first; each game has
/// six betting links, the third and the sixth being the moneylines of the away and the home team.
pub open spec fn listed_games(
    html: Seq<char>,
    teams: Seq<ElementView>,
    bets: Seq<ElementView>,
    games: Seq<ElementView>,
) -> Seq<GameView> {
    let names = team_names(teams);
    let refs = game_refs(games);
    let n = if refs.len() <= names.len() / 2 {
        refs.len()
    } else {
        names.len() / 2
    };
    Seq::new(
        n,
        |i: int|
            GameView {
                away: TeamOddsView {
                    name: names[2 * i],
                    moneyline: moneyline_of(bet_text(bets, 6 * i + 2)),
                },
                home: TeamOddsView {
                    name: names[2 * i + 1],
                    moneyline: moneyline_of(bet_text(bets, 6 * i + 5)),
                },
                game_url: refs[i].0,
                time: starting_time(html, refs[i].0, refs[i].1),
                away_predictor: None,
                home_predictor: None,
            },
    )
}

/// Every team name can be cut and every game's link can be read.
pub open spec fn links_readable(teams: Seq<ElementView>, games: Seq<ElementView>) -> bool {
    &&& forall|i: int| 0 <= i < teams.len() ==> can_clean(#[trigger] teams[i].text)
    &&& forall|i: int|
        0 <= i < game_refs(games).len() ==> link_readable(#[trigger] game_refs(games)[i].1)
}

fn weekday_name(day: u32) -> (r: &'static str)
    ensures
        r@ == day_name(day as int),
{
    if day == 0 {
        "Sunday"
    } else if day == 1 {
        "Monday"
    } else if day == 2 {
        "Tuesday"
    } else if day == 3 {
        "Wednesday"
    } else if day == 4 {
        "Thursday"
    } else if day == 5 {
        "Friday"
    } else {
        "Saturday"
    }
}

fn find_day_at(html: &[char], p: usize) -> (r: u32)
    ensures
        r == day_at(html@, p as int, 0),
        r <= 7,
{
    let mut day: u32 = 0;
    while day < 7
        invariant
            day <= 7,
            day_at(html@, p as int, 0) == day_at(html@, p as int, day as int),
        decreases 7 - day,
    {
        let mut heading = chars_of(weekday_name(day));
        extend_str(&mut heading, ",");
        if text_occurs_at(html, p, &heading) {
            return day;
        }
        day = day + 1;
    }
    day
}

fn find_last_heading(html: &[char], from: usize) -> (r: &'static str)
    requires
        from <= html@.len(),
    ensures
        r@ == last_heading(html@, from as int),
{
    let mut p: usize = from;
    while p > 0
        invariant
            p <= html@.len(),
            last_heading(html@, from as int) == last_heading(html@, p as int),
        decreases p,
    {
        let day: u32 = find_day_at(html, p - 1);
        if day < 7 {
            return weekday_name(day);
        }
        p = p - 1;
    }
    proof {
        reveal_strlit("");
        assert(""@ =~= Seq::<char>::empty());
    }
    ""
}

/// Tells whether the text of a game's link can be read.
pub fn link_fits(raw: &str) -> (r: bool)
    ensures
        r == link_readable(raw@),
{
    let up = stamp_text(raw);
    if !date_fits(up.as_str()) || !clock_fits(up.as_str()) {
        return false;
    }
    match date_of_stamp(up.as_str()) {
        Some((_, month, _)) => 1 <= month && month <= 12,
        None => true,
    }
}

/// The starting time of a game; `raw` is the text of its link.
pub fn game_time_label(html: &str, link: &str, raw: &str) -> (r: String)
    requires
        link_readable(raw@),
    ensures
        r@ == starting_time(html@, link@, raw@),
        all_ascii(trim(raw@)) ==> r@ == ascii_starting_time(html@, link@, raw@),
{
    let up = stamp_text(raw);
    let clock = format_game_time(raw);
    let mut out: Vec<char> = Vec::new();
    match date_of_stamp(up.as_str()) {
        Some((year, month, day)) => {
            extend_str(&mut out, weekday_name(day_of_week(year, month, day)));
            extend_str(&mut out, " ");
            extend_str(&mut out, date_text(year, month, day).as_str());
        },
        None => {
            let page = chars_of(html);
            let target = chars_of(link);
            let position: usize = match find_text(&page, &target) {
                Some(p) => p,
                None => 0,
            };
            extend_str(&mut out, find_last_heading(&page, position));
        },
    }
    extend_str(&mut out, " ");
    extend_str(&mut out, clock.as_str());
    proof {
        let u = uppercase(trim(raw@));
        let c = game_clock(trim(raw@), u);
        match eastern_date(u) {
            Some(date) => {
                assert(out@ =~= day_name(weekday(date.0, date.1, date.2)) + " "@ + show_date(date)
                    + " "@ + c);
            },
            None => {
                assert(out@ =~= last_heading(html@, link_position(html@, link@)) + " "@ + c);
            },
        }
    }
    string_of(trim_of(&out))
}

fn contains_blank(s: &str) -> (r: bool)
    ensures
        r == s@.contains(' '),
{
    let cs = chars_of(s);
    for i in 0..cs.len()
        invariant
            cs@ == s@,
            forall|j: int| 0 <= j < i ==> cs@[j] != ' ',
    {
        if cs[i] == ' ' {
            return true;
        }
    }
    false
}

fn collect_names(links: &Vec<Element>) -> (r: Vec<String>)
    requires
        forall|i: int| 0 <= i < links@.len() ==> can_clean((#[trigger] links@[i]).text@),
    ensures
        strings(r@) == team_names(element_views(links@)),
{
    let mut out: Vec<String> = Vec::new();
    let ghost all = element_views(links@);
    assert(strings(out@) =~= team_names(all.take(0)));
    for i in 0..links.len()
        invariant
            all == element_views(links@),
            forall|i: int| 0 <= i < links@.len() ==> can_clean((#[trigger] links@[i]).text@),
            strings(out@) == team_names(all.take(i as int)),
    {
        assert(all.take(i + 1).drop_last() =~= all.take(i as int));
        assert(all.take(i + 1).last() == links@[i as int]@);
        let name = clean_team_name(links[i].text.as_str());
        if contains_blank(name.as_str()) {
            let ghost was = out@;
            let ghost one = name;
            out.push(name);
            assert(strings(out@) =~= strings(was).push(one@));
        }
    }
    assert(all.take(all.len() as int) =~= all);
    out
}

/// The contents of a list of pairs of strings.
pub open spec fn pair_views(v: Seq<(String, String)>) -> Seq<(Seq<char>, Seq<char>)> {
    v.map_values(|p: (String, String)| (p.0@, p.1@))
}

fn trimmed(s: &str) -> (r: String)
    ensures
        r@ == trim(s@),
{
    let cs = chars_of(s);
    string_of(trim_of(&cs))
}

fn collect_games(links: &Vec<Element>) -> (r: Vec<(String, String)>)
    ensures
        pair_views(r@) == game_refs(element_views(links@)),
{
    let mut out: Vec<(String, String)> = Vec::new();
    let ghost all = element_views(links@);
    assert(pair_views(out@) =~= game_refs(all.take(0)));
    for i in 0..links.len()
        invariant
            all == element_views(links@),
            pair_views(out@) == game_refs(all.take(i as int)),
    {
        assert(all.take(i + 1).drop_last() =~= all.take(i as int));
        assert(all.take(i + 1).last() == links@[i as int]@);
        if let Some(link) = &links[i].attribute {
            let ghost was = out@;
            let one: (String, String) = (link.clone(), trimmed(links[i].text.as_str()));
            let ghost shown = (one.0@, one.1@);
            out.push(one);
            assert(pair_views(out@) =~= pair_views(was).push(shown));
        }
    }
    assert(all.take(all.len() as int) =~= all);
    out
}

fn collect_bets(links: &Vec<Element>) -> (r: Vec<(String, String)>)
    ensures
        r@.len() == links@.len(),
        forall|i: int| 0 <= i < r@.len() ==> (#[trigger] r@[i]).1@ == trim(links@[i].text@),
{
    let mut out: Vec<(String, String)> = Vec::new();
    for i in 0..links.len()
        invariant
            out@.len() == i,
            forall|j: int| 0 <= j < i ==> (#[trigger] out@[j]).1@ == trim(links@[j].text@),
    {
        let address: String = match &links[i].attribute {
            Some(link) => link.clone(),
            None => String::new(),
        };
        out.push((address, trimmed(links[i].text.as_str())));
    }
    out
}

/// The moneyline of the betting link that stands `offset` after `base`.
fn moneyline_at(bets: &Vec<(String, String)>, base: usize, offset: usize) -> (r: String)
    requires
        base <= bets@.len(),
    ensures
        r@ == moneyline_of(
            if base + offset < bets@.len() {
                Some(bets@[base + offset].1@)
            } else {
                None
            },
        ),
{
    if offset < bets.len() - base {
        parse_ml(Some(&bets[base + offset]))
    } else {
        parse_ml(None)
    }
}

/// The games of a page, given the elements that were found in it: the team links, the betting
/// links and the game links.
pub fn assemble_games(
    html: &str,
    teams: &Vec<Element>,
    bets: &Vec<Element>,
    games: &Vec<Element>,
) -> (r: Vec<Game>)
    requires
        links_readable(element_views(teams@), element_views(games@)),
    ensures
        game_views(r@) == listed_games(
            html@,
            element_views(teams@),
            element_views(bets@),
            element_views(games@),
        ),
{
    let ghost tv = element_views(teams@);
    let ghost bv = element_views(bets@);
    let ghost gv = element_views(games@);
    proof {
        assert forall|i: int| 0 <= i < teams@.len() implies can_clean(
            (#[trigger] teams@[i]).text@,
        ) by {
            assert(can_clean(tv[i].text));
        }
    }
    let names = collect_names(teams);
    let refs = collect_games(games);
    let lines = collect_bets(bets);
    let ghost all = listed_games(html@, tv, bv, gv);
    let mut out: Vec<Game> = Vec::new();
    let mut i: usize = 0;
    assert(game_views(out@) =~= all.take(0));
    assert(strings(names@).len() == names@.len());
    assert(pair_views(refs@).len() == refs@.len());
    while i < refs.len() && i < names.len() / 2
        invariant
            links_readable(tv, gv),
            all == listed_games(html@, tv, bv, gv),
            bv == element_views(bets@),
            strings(names@) == team_names(tv),
            pair_views(refs@) == game_refs(gv),
            lines@.len() == bets@.len(),
            forall|j: int| 0 <= j < lines@.len() ==> (#[trigger] lines@[j]).1@ == trim(
                bets@[j].text@,
            ),
            i <= all.len(),
            game_views(out@) == all.take(i as int),
        decreases refs@.len() - i,
    {
        let ghost shown = game_refs(gv)[i as int];
        assert(shown == pair_views(refs@)[i as int]);
        assert(link_readable(shown.1));
        assert(names@[2 * i]@ == strings(names@)[2 * i]);
        assert(names@[2 * i + 1]@ == strings(names@)[2 * i + 1]);
        let time = game_time_label(html, refs[i].0.as_str(), refs[i].1.as_str());
        let (third, sixth): (String, String) = if i <= lines.len() / 6 {
            (moneyline_at(&lines, 6 * i, 2), moneyline_at(&lines, 6 * i, 5))
        } else {
            (parse_ml(None), parse_ml(None))
        };
        let game = Game {
            away: TeamOdds { name: names[2 * i].clone(), moneyline: third },
            home: TeamOdds { name: names[2 * i + 1].clone(), moneyline: sixth },
            game_url: refs[i].0.clone(),
            time,
            away_predictor: None,
            home_predictor: None,
        };
        assert(game@ == all[i as int]);
        let ghost was = out@;
        let ghost one = game@;
        out.push(game);
        assert(game_views(out@) =~= game_views(was).push(one));
        assert(all.take(i + 1) =~= all.take(i as int).push(all[i as int]));
        i = i + 1;
    }
    assert(all.take(all.len() as int) =~= all);
    out
}

proof fn lemma_names_hold_blanks(links: Seq<ElementView>, i: int)
    requires
        0 <= i < team_names(links).len(),
    ensures
        team_names(links)[i].contains(' '),
    decreases links.len(),
{
    if links.len() > 0 {
        let before = team_names(links.drop_last());
        if i < before.len() {
            lemma_names_hold_blanks(links.drop_last(), i);
        }
    }
}

/// Each game that is listed has an address from the page and two team names of more than one
/// word, and no forecast yet.
pub proof fn law_listed_games_are_complete(
    html: Seq<char>,
    teams: Seq<ElementView>,
    bets: Seq<ElementView>,
    games: Seq<ElementView>,
    i: int,
)
    requires
        0 <= i < listed_games(html, teams, bets, games).len(),
    ensures
        ({
            let game = listed_games(html, teams, bets, games)[i];
            &&& game.away.name.contains(' ')
            &&& game.home.name.contains(' ')
            &&& game.game_url == game_refs(games)[i].0
            &&& game.away_predictor is None
            &&& game.home_predictor is None
        }),
{
    lemma_names_hold_blanks(teams, 2 * i);
    lemma_names_hold_blanks(teams, 2 * i + 1);
}

/// The games that a page of odds lists.
pub fn parse_odds(html: &str) -> (r: Vec<Game>)
    requires
        html@.len() <= PAGE_LIMIT,
        links_readable(
            selected(html@, "a[href*='/nba/team/']"@, "href"@),
            selected(html@, "a[data-game-link='true']"@, "href"@),
        ),
    ensures
        game_views(r@) == listed_games(
            html@,
            selected(html@, "a[href*='/nba/team/']"@, "href"@),
            selected(html@, "a[href*='draftkings.com']"@, "href"@),
            selected(html@, "a[data-game-link='true']"@, "href"@),
        ),
{
    let teams = select_elements(html, "a[href*='/nba/team/']", "href");
    let bets = select_elements(html, "a[href*='draftkings.com']", "href");
    let games = select_elements(html, "a[data-game-link='true']", "href");
    assemble_games(html, &teams, &bets, &games)
}

/// Tells whether every team name can be cut and every game's link can be read.
pub fn links_fit(teams: &Vec<Element>, games: &Vec<Element>) -> (r: bool)
    ensures
        r == links_readable(element_views(teams@), element_views(games@)),
{
    let ghost tv = element_views(teams@);
    let ghost gv = element_views(games@);
    for i in 0..teams.len()
        invariant
            tv == element_views(teams@),
            forall|j: int| 0 <= j < i ==> can_clean(#[trigger] tv[j].text),
    {
        assert(tv[i as int].text == teams@[i as int].text@);
        if !cleanable(teams[i].text.as_str()) {
            return false;
        }
    }
    let refs = collect_games(games);
    for i in 0..refs.len()
        invariant
            gv == element_views(games@),
            pair_views(refs@) == game_refs(gv),
            forall|j: int| 0 <= j < i ==> link_readable(#[trigger] game_refs(gv)[j].1),
    {
        assert(game_refs(gv)[i as int] == pair_views(refs@)[i as int]);
        if !link_fits(refs[i].1.as_str()) {
            assert(i < game_refs(gv).len());
            assert(!link_readable(game_refs(gv)[i as int].1));
            return false;
        }
    }
    assert(game_refs(gv).len() == refs@.len());
    true
}

/// `parse_odds`, or nothing where the page is too long, a team name cannot be cut or a game's link
/// cannot be read.
pub fn try_parse_odds(html: &str) -> (r: Option<Vec<Game>>)
    ensures
        ({
            let teams = selected(html@, "a[href*='/nba/team/']"@, "href"@);
            let bets = selected(html@, "a[href*='draftkings.com']"@, "href"@);
            let games = selected(html@, "a[data-game-link='true']"@, "href"@);
            match r {
                Some(list) => html@.len() <= PAGE_LIMIT && links_readable(teams, games)
                    && game_views(list@) == listed_games(html@, teams, bets, games),
                None => html@.len() > PAGE_LIMIT || !links_readable(teams, games),
            }
        }),
{
    if !page_fits(html) {
        return None;
    }
    let teams = select_elements(html, "a[href*='/nba/team/']", "href");
    let games = select_elements(html, "a[data-game-link='true']", "href");
    if links_fit(&teams, &games) {
        Some(parse_odds(html))
    } else {
        None
    }
}

/// The names of two lists of team links are those of the first followed by those of the second; one
/// link gives its cleaned text, where that holds a blank.
pub proof fn law_names_follow_the_links(a: Seq<ElementView>, b: Seq<ElementView>)
    ensures
        team_names(a + b) == team_names(a) + team_names(b),
        a.len() == 1 ==> team_names(a) == if cleaned(a[0].text).contains(' ') {
            seq![cleaned(a[0].text)]
        } else {
            Seq::empty()
        },
        a.len() == 0 ==> team_names(a) == Seq::<Seq<char>>::empty(),
    decreases b.len(),
{
    if a.len() == 1 {
        let none = Seq::<Seq<char>>::empty();
        assert(team_names(a.drop_last()) == none);
        assert(none.push(cleaned(a[0].text)) =~= seq![cleaned(a[0].text)]);
    }
    if b.len() == 0 {
        assert(a + b =~= a);
        assert(team_names(a) + team_names(b) =~= team_names(a));
    } else {
        law_names_follow_the_links(a, b.drop_last());
        assert((a + b).drop_last() =~= a + b.drop_last());
        assert(team_names(a + b) =~= team_names(a) + team_names(b));
    }
}

/// The references of two lists of game links are those of the first followed by those of the
/// second; one link with an address gives that and its text without the white space around it.
pub proof fn law_references_follow_the_links(a: Seq<ElementView>, b: Seq<ElementView>)
    ensures
        game_refs(a + b) == game_refs(a) + game_refs(b),
        a.len() == 1 ==> game_refs(a) == match a[0].attribute {
            Some(link) => seq![(link, trim(a[0].text))],
            None => Seq::empty(),
        },
        a.len() == 0 ==> game_refs(a) == Seq::<(Seq<char>, Seq<char>)>::empty(),
    decreases b.len(),
{
    if a.len() == 1 {
        let none = Seq::<(Seq<char>, Seq<char>)>::empty();
        assert(game_refs(a.drop_last()) == none);
        if let Some(link) = a[0].attribute {
            assert(none.push((link, trim(a[0].text))) =~= seq![(link, trim(a[0].text))]);
        }
    }
    if b.len() == 0 {
        assert(a + b =~= a);
        assert(game_refs(a) + game_refs(b) =~= game_refs(a));
    } else {
        law_references_follow_the_links(a, b.drop_last());
        assert((a + b).drop_last() =~= a + b.drop_last());
        assert(game_refs(a + b) =~= game_refs(a) + game_refs(b));
    }
}

/// A game is listed for every address that has a pair of names, however many there are, and for no
/// other: game `i` has names `2i` and `2i + 1`, the moneylines of the betting links `6i + 2` and
/// `6i + 5`, and address `i` with the time of its link.
pub proof fn law_every_pair_with_an_address_is_listed(
    html: Seq<char>,
    teams: Seq<ElementView>,
    bets: Seq<ElementView>,
    games: Seq<ElementView>,
    i: int,
)
    ensures
        ({
            let list = listed_games(html, teams, bets, games);
            let names = team_names(teams);
            let refs = game_refs(games);
            &&& 0 <= i < list.len() <==> 0 <= i < refs.len() && 2 * i + 1 < names.len()
            &&& 0 <= i < refs.len() && 2 * i + 1 < names.len() ==> {
                &&& list[i].away.name == names[2 * i]
                &&& list[i].home.name == names[2 * i + 1]
                &&& list[i].game_url == refs[i].0
                &&& list[i].time == starting_time(html, refs[i].0, refs[i].1)
                &&& list[i].away.moneyline == if 6 * i + 2 < bets.len() {
                    moneyline_of(Some(bets[6 * i + 2].text))
                } else {
                    seq!['-']
                }
                &&& list[i].home.moneyline == if 6 * i + 5 < bets.len() {
                    moneyline_of(Some(bets[6 * i + 5].text))
                } else {
                    seq!['-']
                }
            }
        }),
{
    reveal_strlit("-");
    assert("-"@ =~= seq!['-']);
    if 0 <= i && 6 * i + 2 < bets.len() {
        lemma_trimmed_once(bets[6 * i + 2].text);
    }
    if 0 <= i && 6 * i + 5 < bets.len() {
        lemma_trimmed_once(bets[6 * i + 5].text);
    }
}

/// What is trimmed stays as it is when it is trimmed again.
proof fn lemma_trimmed_once(s: Seq<char>)
    ensures
        trim(trim(s)) == trim(s),
{
    law_trim_takes_white_space_alone(s);
}

/// The names of the seven days.
pub proof fn law_days_are_named(day: int)
    requires
        0 <= day < 7,
    ensures
        day_name(day) == seq![
            "Sunday"@,
            "Monday"@,
            "Tuesday"@,
            "Wednesday"@,
            "Thursday"@,
            "Friday"@,
            "Saturday"@,
        ][day],
{
}

/// Two days have no heading at the same place.
proof fn lemma_one_heading(html: Seq<char>, p: int, a: int, b: int)
    requires
        0 <= a < 7,
        0 <= b < 7,
        heading_at(html, p, a),
        heading_at(html, p, b),
    ensures
        a == b,
{
    reveal_strlit("Sunday");
    reveal_strlit("Monday");
    reveal_strlit("Tuesday");
    reveal_strlit("Wednesday");
    reveal_strlit("Thursday");
    reveal_strlit("Friday");
    reveal_strlit("Saturday");
    let x = day_name(a) + ","@;
    let y = day_name(b) + ","@;
    law_pattern_stands_whole(html, p, x);
    law_pattern_stands_whole(html, p, y);
    assert(html[p + 0] == x[0] && html[p + 1] == x[1]);
    assert(html[p + 0] == y[0] && html[p + 1] == y[1]);
}

proof fn lemma_day_at(html: Seq<char>, p: int, day: int, from: int)
    requires
        0 <= from <= day <= 7,
        day < 7 ==> heading_at(html, p, day),
        forall|d: int| from <= d < day ==> !#[trigger] heading_at(html, p, d),
    ensures
        day_at(html, p, from) == day,
    decreases day - from,
{
    if from < day {
        assert(!heading_at(html, p, from));
        lemma_day_at(html, p, day, from + 1);
    }
}

/// The day before a place of the page is that of the nearest heading that starts before it, and
/// there is none where no heading does.
pub proof fn law_day_is_that_of_the_nearest_heading(html: Seq<char>, p: int, q: int, day: int)
    requires
        -1 <= q < p,
        q >= 0 ==> 0 <= day < 7 && occurs_at(html, q, day_name(day) + seq![',']),
        forall|r: int, d: int|
            q < r < p && 0 <= d < 7 ==> !#[trigger] occurs_at(html, r, day_name(d) + seq![',']),
    ensures
        q >= 0 ==> last_heading(html, p) == day_name(day),
        q < 0 ==> last_heading(html, p) == Seq::<char>::empty(),
    decreases p,
{
    reveal_strlit(",");
    assert(","@ =~= seq![',']);
    if p > 0 {
        if q == p - 1 {
            assert(heading_at(html, q, day));
            assert forall|d: int| 0 <= d < day implies !#[trigger] heading_at(html, q, d) by {
                if heading_at(html, q, d) {
                    lemma_one_heading(html, q, d, day);
                }
            }
            lemma_day_at(html, q, day, 0);
        } else {
            assert forall|d: int| 0 <= d < 7 implies !#[trigger] heading_at(html, p - 1, d) by {
                assert(!occurs_at(html, p - 1, day_name(d) + seq![',']));
            }
            lemma_day_at(html, p - 1, 7, 0);
            law_day_is_that_of_the_nearest_heading(html, p - 1, q, day);
        }
    }
}

/// The starting time of a game with a date shows, word by word, the name of its day, its date and
/// its time of day; without a date, the heading before its link and the time of day.
pub proof fn law_starting_time_word_by_word(
    html: Seq<char>,
    link: Seq<char>,
    raw: Seq<char>,
    p: int,
)
    requires
        p == match find(html, link) {
            Some(q) => q,
            None => 0,
        },
        eastern_date(uppercase(trim(raw))) matches Some(date) ==> i32::MIN <= date.0 <= i32::MAX
            && 0 <= date.1 <= u32::MAX && 0 <= date.2 <= u32::MAX,
    ensures
        ({
            let up = uppercase(trim(raw));
            let clock = words(game_clock(trim(raw), up));
            words(starting_time(html, link, raw)) == match eastern_date(up) {
                Some(date) => seq![
                    day_name(weekday(date.0, date.1, date.2)),
                    show_date(date),
                ] + clock,
                None => words(last_heading(html, p)) + clock,
            }
        }),
{
    reveal_strlit(" ");
    let up = uppercase(trim(raw));
    let clock = game_clock(trim(raw), up);
    match eastern_date(up) {
        Some(date) => {
            let name = day_name(weekday(date.0, date.1, date.2));
            let shown = show_date(date);
            lemma_day_name(weekday(date.0, date.1, date.2));
            lemma_date_reads_back(date);
            let a = name + " "@;
            let b = shown + " "@;
            lemma_one_word(name);
            lemma_one_word(shown);
            lemma_words_space_after(name, " "@);
            lemma_words_space_after(shown, " "@);
            lemma_words_concat(b, clock);
            lemma_words_concat(a, b + clock);
            lemma_words_trimmed(a + (b + clock));
            assert(name + " "@ + shown + " "@ + clock =~= a + (b + clock));
            assert(seq![name] + (seq![shown] + words(clock)) =~= seq![name, shown] + words(clock));
        },
        None => {
            let heading = last_heading(html, p);
            let a = heading + " "@;
            lemma_words_space_after(heading, " "@);
            lemma_words_concat(a, clock);
            lemma_words_trimmed(a + clock);
        },
    }
}

/// Trimming changes no word.
proof fn lemma_words_trimmed(s: Seq<char>)
    ensures
        words(trim(s)) == words(s),
{
    law_trim_takes_white_space_alone(s);
    let t = trim(s);
    let k = choose|k: int|
        {
            &&& 0 <= k
            &&& k + t.len() <= s.len()
            &&& #[trigger] s.subrange(k, k + t.len()) == t
            &&& forall|i: int|
                0 <= i < s.len() && (i < k || i >= k + t.len()) ==> is_space(#[trigger] s[i])
        };
    let a = s.take(k);
    let b = s.skip(k + t.len());
    assert forall|i: int| 0 <= i < a.len() implies is_space(#[trigger] a[i]) by {
        assert(is_space(s[i]));
    }
    assert forall|i: int| 0 <= i < b.len() implies is_space(#[trigger] b[i]) by {
        assert(is_space(s[k + t.len() + i]));
    }
    assert(s =~= a + (t + b));
    lemma_words_space_after(t, b);
    lemma_words_space_before(a, t + b);
}

/// The text of a game's link can be read where, in capital letters, it is a stamp of a day that the
/// calendar has, or no stamp at all.
pub proof fn law_links_can_be_read(
    raw: Seq<char>,
    date: (Seq<char>, Seq<char>, Seq<char>),
    hour: Seq<char>,
    minute: Seq<char>,
)
    requires
        is_stamp(date, hour, minute),
        is_date(numeral_value(date.0), numeral_value(date.1), numeral_value(date.2)),
    ensures
        uppercase(trim(raw)) == stamp_of(date, hour, minute) ==> link_readable(raw),
        stamp_parts(uppercase(trim(raw))) is None ==> link_readable(raw),
{
    law_stamps_are_read(date, hour, minute);
    law_stamps_can_be_read(date, hour, minute);
    law_prev_day_steps_back_one_day(
        numeral_value(date.0),
        numeral_value(date.1),
        numeral_value(date.2),
    );
}

} // verus!
