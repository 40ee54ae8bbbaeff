//! The record of a game: two lines of text, the day and the address, and what can be read back
//! from the lines.

use vstd::prelude::*;

use crate::bets::{is_pick, is_pick_value};
use crate::bytes::{
    byte_len, can_truncate, cut_of, fits, law_texts_that_can_be_cut, law_truncated_is_a_start,
    lemma_longer_start, truncate, truncated,
};
use crate::model::{forecast_view, EvView, Forecast, ForecastView, Game, GameView};
use crate::text::{
    chars_of, contains, copy_of, extend, extend_str, lemma_split_on_nonempty, lines, lines_of,
    pad_left, pad_right, push_padded_left, push_padded_right, split_on, split_text_on, string_of,
    text_contains, texts, trim, trim_of, words, words_of,
};
use crate::text_facts::{lemma_split_concat, lemma_split_plain};

verus! {

/// The width of a team name in a row, in bytes when it is cut and in characters when it is padded.
pub const NAME_WIDTH: usize = 26;

/// The width of a moneyline and of a chance in a row.
pub const ODDS_WIDTH: usize = 10;

/// The width of an expected value in a row.
pub const EV_WIDTH: usize = 14;

/// A saved game: the day such as `Monday 3/9/2026`, the address of the game, which tells it from
/// the others, two formatted lines, and how many of them are picks.
pub struct Record {
    pub day: String,
    pub url: String,
    pub block: String,
    pub picks: usize,
}

pub struct RecordView {
    pub day: Seq<char>,
    pub url: Seq<char>,
    pub block: Seq<char>,
    pub picks: int,
}

impl View for Record {
    type V = RecordView;

    open spec fn view(&self) -> RecordView {
        RecordView {
            day: self.day@,
            url: self.url@,
            block: self.block@,
            picks: self.picks as int,
        }
    }
}

/// The contents of a list of records.
pub open spec fn record_views(records: Seq<Record>) -> Seq<RecordView> {
    records.map_values(|r: Record| r@)
}

/// One row of the table.
pub open spec fn row(
    name: Seq<char>,
    moneyline: Seq<char>,
    percent: Seq<char>,
    ev: Seq<char>,
) -> Seq<char> {
    pad_right(name, NAME_WIDTH as int) + " "@ + pad_left(moneyline, ODDS_WIDTH as int) + " "@
        + pad_left(percent, ODDS_WIDTH as int) + " "@ + pad_left(ev, EV_WIDTH as int)
}

/// The chance of a team as it is shown.
pub open spec fn percent_text(forecast: Option<ForecastView>) -> Seq<char> {
    match forecast {
        Some(f) => f.percent + "%"@,
        None => "-"@,
    }
}

/// The expected value of a bet, where there is one.
pub open spec fn ev_of(forecast: Option<ForecastView>) -> Option<EvView> {
    match forecast {
        Some(f) => f.ev,
        None => None,
    }
}

/// The expected value of a bet on the away team as it is shown: a pick is marked.
pub open spec fn away_ev_text(ev: Option<EvView>) -> Seq<char> {
    match ev {
        Some(ev) => if is_pick_value(ev.bits) {
            ev.text + " PICK"@
        } else {
            ev.text
        },
        None => "-"@,
    }
}

/// The expected value of a bet on the home team as it is shown: never a pick.
pub open spec fn home_ev_text(ev: Option<EvView>) -> Seq<char> {
    match ev {
        Some(ev) => ev.text,
        None => "-"@,
    }
}

pub open spec fn away_row(game: GameView) -> Seq<char> {
    row(
        truncated(game.away.name, NAME_WIDTH as int),
        game.away.moneyline,
        percent_text(game.away_predictor),
        away_ev_text(ev_of(game.away_predictor)),
    )
}

pub open spec fn home_row(game: GameView) -> Seq<char> {
    row(
        truncated(game.home.name, NAME_WIDTH as int),
        game.home.moneyline,
        percent_text(game.home_predictor),
        home_ev_text(ev_of(game.home_predictor)),
    )
}

/// Both names can be cut to the width of a name.
pub open spec fn names_fit(game: GameView) -> bool {
    can_truncate(game.away.name, NAME_WIDTH as int) && can_truncate(
        game.home.name,
        NAME_WIDTH as int,
    )
}

/// How many of the lines hold the word PICK.
pub open spec fn count_picks(ls: Seq<Seq<char>>) -> int
    decreases ls.len(),
{
    if ls.len() == 0 {
        0
    } else {
        count_picks(ls.drop_last()) + if contains(ls.last(), "PICK"@) {
            1int
        } else {
            0int
        }
    }
}

/// The day of a starting time: its first word, and its second where that looks like a date.
pub open spec fn day_key(time: Seq<char>) -> Seq<char> {
    let p = split_on(time, ' ');
    if p.len() > 1 && p[1].contains('/') {
        p[0] + " "@ + p[1]
    } else {
        p[0]
    }
}

/// The record of a game.
pub open spec fn record_of(game: GameView) -> RecordView {
    let block = away_row(game) + "\n"@ + home_row(game);
    RecordView {
        day: day_key(game.time),
        url: game.game_url,
        block,
        picks: count_picks(lines(block)),
    }
}

/// The first line, from position `i` on, that holds the word PICK.
pub open spec fn pick_line_from(ls: Seq<Seq<char>>, i: int) -> Option<Seq<char>>
    decreases ls.len() - i,
{
    if i >= ls.len() {
        None
    } else if contains(ls[i], "PICK"@) {
        Some(ls[i])
    } else {
        pick_line_from(ls, i + 1)
    }
}

/// The line of a block that is a pick.
pub open spec fn pick_line(block: Seq<char>) -> Option<Seq<char>> {
    pick_line_from(lines(block), 0)
}

/// The team of the pick: the first 26 bytes of its line.
pub open spec fn pick_team(block: Seq<char>) -> Option<Seq<char>> {
    match pick_line(block) {
        Some(l) => Some(trim(truncated(l, NAME_WIDTH as int))),
        None => None,
    }
}

/// The line of the pick can be cut to the width of a name.
pub open spec fn pick_team_readable(block: Seq<char>) -> bool {
    pick_line(block) matches Some(l) ==> can_truncate(l, NAME_WIDTH as int)
}

/// A word that looks like a moneyline: a sign first, and neither a percent sign nor a point.
pub open spec fn is_moneyline(w: Seq<char>) -> bool {
    !w.contains('%') && !w.contains('.') && w.len() > 0 && (w[0] == '+' || w[0] == '-')
}

/// The first word, from position `i` on, that looks like a moneyline.
pub open spec fn moneyline_from(ws: Seq<Seq<char>>, i: int) -> Option<Seq<char>>
    decreases ws.len() - i,
{
    if i >= ws.len() {
        None
    } else if is_moneyline(ws[i]) {
        Some(ws[i])
    } else {
        moneyline_from(ws, i + 1)
    }
}

/// The moneyline of the pick.
pub open spec fn pick_ml(block: Seq<char>) -> Option<Seq<char>> {
    match pick_line(block) {
        Some(l) => moneyline_from(words(l), 0),
        None => None,
    }
}

/// Appends one row of the table.
pub(crate) fn push_row(out: &mut Vec<char>, name: &str, moneyline: &str, percent: &str, ev: &str)
    ensures
        final(out)@ == old(out)@ + row(name@, moneyline@, percent@, ev@),
{
    push_padded_right(out, &chars_of(name), NAME_WIDTH);
    out.push(' ');
    push_padded_left(out, &chars_of(moneyline), ODDS_WIDTH);
    out.push(' ');
    push_padded_left(out, &chars_of(percent), ODDS_WIDTH);
    out.push(' ');
    push_padded_left(out, &chars_of(ev), EV_WIDTH);
    proof {
        reveal_strlit(" ");
        assert(out@ =~= old(out)@ + row(name@, moneyline@, percent@, ev@));
    }
}

fn show_percent(forecast: &Option<Forecast>) -> (r: String)
    ensures
        r@ == percent_text(forecast_view(*forecast)),
{
    match forecast {
        Some(f) => {
            let mut out = chars_of(f.percent.as_str());
            extend_str(&mut out, "%");
            string_of(&out)
        },
        None => "-".to_string(),
    }
}

fn show_away_ev(forecast: &Option<Forecast>) -> (r: String)
    ensures
        r@ == away_ev_text(ev_of(forecast_view(*forecast))),
{
    if let Some(f) = forecast {
        if let Some(ev) = &f.ev {
            let mut out = chars_of(ev.text.as_str());
            if is_pick(ev.bits) {
                extend_str(&mut out, " PICK");
            }
            return string_of(&out);
        }
    }
    "-".to_string()
}

fn show_home_ev(forecast: &Option<Forecast>) -> (r: String)
    ensures
        r@ == home_ev_text(ev_of(forecast_view(*forecast))),
{
    if let Some(f) = forecast {
        if let Some(ev) = &f.ev {
            return ev.text.clone();
        }
    }
    "-".to_string()
}

/// Tells whether both names of a game can be cut to the width of a name.
pub fn names_fit_rows(game: &Game) -> (r: bool)
    ensures
        r == names_fit(game@),
{
    crate::bytes::truncatable(game.away.name.as_str(), NAME_WIDTH) && crate::bytes::truncatable(
        game.home.name.as_str(),
        NAME_WIDTH,
    )
}

/// Appends the row of the away team.
pub(crate) fn push_away_row(out: &mut Vec<char>, game: &Game)
    requires
        names_fit(game@),
    ensures
        final(out)@ == old(out)@ + away_row(game@),
{
    push_row(
        out,
        truncate(game.away.name.as_str(), NAME_WIDTH),
        game.away.moneyline.as_str(),
        show_percent(&game.away_predictor).as_str(),
        show_away_ev(&game.away_predictor).as_str(),
    );
}

/// Appends the row of the home team.
pub(crate) fn push_home_row(out: &mut Vec<char>, game: &Game)
    requires
        names_fit(game@),
    ensures
        final(out)@ == old(out)@ + home_row(game@),
{
    push_row(
        out,
        truncate(game.home.name.as_str(), NAME_WIDTH),
        game.home.moneyline.as_str(),
        show_percent(&game.home_predictor).as_str(),
        show_home_ev(&game.home_predictor).as_str(),
    );
}

/// How many lines of a block hold the word PICK.
pub fn picks_in(block: &[char]) -> (r: usize)
    ensures
        r == count_picks(lines(block@)),
{
    let ls = lines_of(block);
    let word = chars_of("PICK");
    let ghost all = lines(block@);
    let mut n: usize = 0;
    for i in 0..ls.len()
        invariant
            word@ == "PICK"@,
            texts(ls@) == all,
            n <= i,
            n == count_picks(all.take(i as int)),
    {
        assert(all.take(i + 1).drop_last() =~= all.take(i as int));
        assert(all[i as int] == ls@[i as int]@);
        if text_contains(&ls[i], &word) {
            n = n + 1;
        }
    }
    assert(all.take(all.len() as int) =~= all);
    n
}

fn has_char(s: &[char], c: char) -> (r: bool)
    ensures
        r == s@.contains(c),
{
    for i in 0..s.len()
        invariant
            forall|j: int| 0 <= j < i ==> s@[j] != c,
    {
        if s[i] == c {
            return true;
        }
    }
    false
}

/// The day of a starting time.
pub fn day_of_time(time: &str) -> (r: String)
    ensures
        r@ == day_key(time@),
{
    let cs = chars_of(time);
    let parts = split_text_on(&cs, ' ');
    let ghost p = split_on(time@, ' ');
    assert(texts(parts@) == p);
    assert(p[0] == parts@[0]@);
    let mut out = copy_of(&parts[0]);
    if parts.len() > 1 {
        assert(p[1] == parts@[1]@);
        if has_char(&parts[1], '/') {
            extend_str(&mut out, " ");
            extend(&mut out, &parts[1]);
        }
    }
    string_of(&out)
}

/// The record of a game.
pub fn game_to_record(game: &Game) -> (r: Record)
    requires
        names_fit(game@),
    ensures
        r@ == record_of(game@),
{
    let mut block: Vec<char> = Vec::new();
    push_away_row(&mut block, game);
    extend_str(&mut block, "\n");
    push_home_row(&mut block, game);
    assert(block@ =~= away_row(game@) + "\n"@ + home_row(game@));
    let picks: usize = picks_in(&block);
    Record {
        day: day_of_time(game.time.as_str()),
        url: game.game_url.clone(),
        block: string_of(&block),
        picks,
    }
}

fn find_pick_line(block: &str) -> (r: Option<Vec<char>>)
    ensures
        match r {
            Some(l) => pick_line(block@) == Some(l@),
            None => pick_line(block@) is None,
        },
{
    let cs = chars_of(block);
    let ls = lines_of(&cs);
    let word = chars_of("PICK");
    let ghost all = lines(block@);
    let mut i: usize = 0;
    while i < ls.len()
        invariant
            word@ == "PICK"@,
            texts(ls@) == all,
            all == lines(block@),
            pick_line_from(all, 0) == pick_line_from(all, i as int),
        decreases ls@.len() - i,
    {
        assert(all[i as int] == ls@[i as int]@);
        if text_contains(&ls[i], &word) {
            return Some(copy_of(&ls[i]));
        }
        i = i + 1;
    }
    assert(all.len() == ls@.len());
    None
}

/// Tells whether the team of the pick can be read.
pub fn pick_team_fits(block: &str) -> (r: bool)
    ensures
        r == pick_team_readable(block@),
{
    match find_pick_line(block) {
        Some(l) => fits(&l, NAME_WIDTH) || cut_of(&l, NAME_WIDTH).is_some(),
        None => true,
    }
}

/// The team name that has a PICK in the block of a record.
pub fn pick_team_from_block(block: &str) -> (r: Option<String>)
    requires
        pick_team_readable(block@),
    ensures
        match r {
            Some(t) => pick_team(block@) == Some(t@),
            None => pick_team(block@) is None,
        },
{
    match find_pick_line(block) {
        Some(l) => {
            let line = string_of(&l);
            let cs = chars_of(truncate(line.as_str(), NAME_WIDTH));
            Some(string_of(trim_of(&cs)))
        },
        None => None,
    }
}

/// The moneyline of the PICK line, such as "+390" or "-260".
pub fn pick_ml_from_block(block: &str) -> (r: Option<String>)
    ensures
        match r {
            Some(t) => pick_ml(block@) == Some(t@),
            None => pick_ml(block@) is None,
        },
{
    let line = match find_pick_line(block) {
        Some(l) => l,
        None => return None,
    };
    let ws = words_of(&line);
    let ghost all = words(line@);
    let mut i: usize = 0;
    while i < ws.len()
        invariant
            texts(ws@) == all,
            moneyline_from(all, 0) == moneyline_from(all, i as int),
            pick_line(block@) == Some(line@),
            all == words(line@),
        decreases ws@.len() - i,
    {
        assert(all[i as int] == ws@[i as int]@);
        let w = &ws[i];
        if !has_char(w, '%') && !has_char(w, '.') && w.len() > 0 && (w[0] == '+' || w[0] == '-') {
            return Some(string_of(w));
        }
        i = i + 1;
    }
    assert(all.len() == ws@.len());
    None
}

/// The columns of a row, where each field fits into its own: the name starts the row, the moneyline
/// ends before position 37, the chance before 48 and the expected value before 63, and all between
/// them is blank.
pub proof fn law_fields_stand_in_columns(
    name: Seq<char>,
    moneyline: Seq<char>,
    percent: Seq<char>,
    ev: Seq<char>,
    i: int,
)
    requires
        name.len() <= 26,
        moneyline.len() <= 10,
        percent.len() <= 10,
        ev.len() <= 14,
        0 <= i < 63,
    ensures
        row(name, moneyline, percent, ev).len() == 63,
        row(name, moneyline, percent, ev)[i] == if i < name.len() {
            name[i]
        } else if 37 - moneyline.len() <= i < 37 {
            moneyline[i - 37 + moneyline.len()]
        } else if 48 - percent.len() <= i < 48 {
            percent[i - 48 + percent.len()]
        } else if 63 - ev.len() <= i {
            ev[i - 63 + ev.len()]
        } else {
            ' '
        },
{
    reveal_strlit(" ");
}

/// As many lines count as hold the word PICK: one list after another counts what both count, and a
/// single line counts one or nothing.
pub proof fn law_picks_are_counted_line_by_line(a: Seq<Seq<char>>, b: Seq<Seq<char>>)
    ensures
        count_picks(a + b) == count_picks(a) + count_picks(b),
        a.len() == 1 ==> count_picks(a) == if contains(a[0], "PICK"@) {
            1int
        } else {
            0int
        },
        a.len() == 0 ==> count_picks(a) == 0,
    decreases b.len(),
{
    if a.len() == 1 {
        assert(count_picks(a.drop_last()) == 0);
    }
    if b.len() == 0 {
        assert(a + b =~= a);
    } else {
        law_picks_are_counted_line_by_line(a, b.drop_last());
        assert((a + b).drop_last() =~= a + b.drop_last());
    }
}

/// The day of a starting time is its first word, with the second where that holds a slash.
pub proof fn law_day_is_the_first_word_and_the_date(
    first: Seq<char>,
    second: Seq<char>,
    rest: Seq<char>,
)
    requires
        !first.contains(' '),
        !second.contains(' '),
        rest.len() > 0 ==> rest[0] == ' ',
    ensures
        second.contains('/') ==> day_key(first + seq![' '] + second + rest) == first + seq![' ']
            + second,
        !second.contains('/') ==> day_key(first + seq![' '] + second + rest) == first,
        day_key(first) == first,
{
    reveal_strlit(" ");
    assert(" "@ =~= seq![' ']);
    lemma_split_plain(first, ' ');
    lemma_split_plain(second, ' ');
    lemma_first_piece(first, second + rest);
    assert(first + seq![' '] + second + rest =~= first.push(' ') + (second + rest));
    if rest.len() > 0 {
        let tail = rest.drop_first();
        lemma_first_piece(second, tail);
        assert(second + rest =~= second.push(' ') + tail);
    } else {
        assert(second + rest =~= second);
    }
}

/// What stands before the first blank is the first piece.
proof fn lemma_first_piece(first: Seq<char>, rest: Seq<char>)
    requires
        !first.contains(' '),
    ensures
        split_on(first.push(' ') + rest, ' ') == seq![first] + split_on(rest, ' '),
{
    let head = first.push(' ');
    lemma_split_plain(first, ' ');
    assert(head.drop_last() =~= first);
    assert(split_on(head, ' ') =~= seq![first, Seq::empty()]);
    lemma_split_concat(head, rest, ' ');
    lemma_split_on_nonempty(rest, ' ');
    let p = split_on(rest, ' ');
    assert(Seq::<char>::empty() + p[0] =~= p[0]);
    assert(split_on(head, ' ').drop_last() =~= seq![first]);
    assert(seq![first].push(p[0]) + p.drop_first() =~= seq![first] + p);
}

/// The pick of a block is the first of its lines that holds the word PICK.
pub proof fn law_pick_is_the_first_marked_line(block: Seq<char>, i: int)
    requires
        0 <= i <= lines(block).len(),
        forall|j: int| 0 <= j < i ==> !contains(#[trigger] lines(block)[j], "PICK"@),
        i < lines(block).len() ==> contains(lines(block)[i], "PICK"@),
    ensures
        i < lines(block).len() ==> pick_line(block) == Some(lines(block)[i]),
        i == lines(block).len() ==> pick_line(block) is None,
{
    lemma_pick_line_from(lines(block), 0, i);
}

proof fn lemma_pick_line_from(ls: Seq<Seq<char>>, k: int, i: int)
    requires
        0 <= k <= i <= ls.len(),
        forall|j: int| k <= j < i ==> !contains(#[trigger] ls[j], "PICK"@),
        i < ls.len() ==> contains(ls[i], "PICK"@),
    ensures
        i < ls.len() ==> pick_line_from(ls, k) == Some(ls[i]),
        i == ls.len() ==> pick_line_from(ls, k) is None,
    decreases i - k,
{
    if k < i {
        lemma_pick_line_from(ls, k + 1, i);
    }
}

/// The team of a pick is what the first 26 bytes of its line hold.
pub proof fn law_team_is_the_start_of_the_line(block: Seq<char>, line: Seq<char>, n: int)
    requires
        pick_line(block) == Some(line),
        0 <= n <= line.len(),
        byte_len(line.take(n)) == 26 || (n == line.len() && byte_len(line) <= 26),
    ensures
        pick_team_readable(block),
        pick_team(block) == Some(trim(line.take(n))),
{
    law_texts_that_can_be_cut(line, 26);
    law_truncated_is_a_start(line, 26);
    let k = truncated(line, 26).len() as int;
    let all = line.len() as int;
    assert(line.take(all) =~= line);
    if n < k {
        lemma_longer_start(line, n, k);
    } else if k < n {
        lemma_longer_start(line, k, n);
        if n < all {
            lemma_longer_start(line, n, all);
        }
    }
}

/// A word is a moneyline where it starts with a sign and holds neither a percent sign nor a point,
/// however long it is.
pub proof fn law_signed_words_are_moneylines(sign: char, rest: Seq<char>)
    ensures
        is_moneyline(seq![sign] + rest) <==> (sign == '+' || sign == '-') && (forall|i: int|
            0 <= i < rest.len() ==> #[trigger] rest[i] != '%' && rest[i] != '.'),
        !is_moneyline(Seq::empty()),
{
    let w = seq![sign] + rest;
    assert(w[0] == sign);
    assert forall|i: int| 0 <= i < rest.len() implies #[trigger] rest[i] == w[i + 1] by {}
    assert forall|i: int| 1 <= i < w.len() implies #[trigger] w[i] == rest[i - 1] by {}
    if !is_moneyline(w) && (sign == '+' || sign == '-') {
        if w.contains('%') {
            let i = choose|i: int| 0 <= i < w.len() && w[i] == '%';
            assert(rest[i - 1] == '%');
        } else {
            let i = choose|i: int| 0 <= i < w.len() && w[i] == '.';
            assert(rest[i - 1] == '.');
        }
    }
}

/// The moneyline of a pick is the first word of its line that is one.
pub proof fn law_moneyline_is_the_first_signed_word(block: Seq<char>, line: Seq<char>, i: int)
    requires
        pick_line(block) == Some(line),
        0 <= i <= words(line).len(),
        forall|j: int| 0 <= j < i ==> !is_moneyline(#[trigger] words(line)[j]),
        i < words(line).len() ==> is_moneyline(words(line)[i]),
    ensures
        i < words(line).len() ==> pick_ml(block) == Some(words(line)[i]),
        i == words(line).len() ==> pick_ml(block) is None,
{
    lemma_moneyline_from(words(line), 0, i);
}

proof fn lemma_moneyline_from(ws: Seq<Seq<char>>, k: int, i: int)
    requires
        0 <= k <= i <= ws.len(),
        forall|j: int| k <= j < i ==> !is_moneyline(#[trigger] ws[j]),
        i < ws.len() ==> is_moneyline(ws[i]),
    ensures
        i < ws.len() ==> moneyline_from(ws, k) == Some(ws[i]),
        i == ws.len() ==> moneyline_from(ws, k) is None,
    decreases i - k,
{
    if k < i {
        lemma_moneyline_from(ws, k + 1, i);
    }
}

/// An expected value is shown as it is written, with the word PICK behind it on a pick of the away
/// team and nowhere else; what is missing is shown as a dash.
pub proof fn law_values_are_shown_as_written(f: ForecastView, ev: EvView)
    ensures
        percent_text(Some(f)) == f.percent.push('%'),
        percent_text(None) == seq!['-'],
        home_ev_text(Some(ev)) == ev.text,
        away_ev_text(Some(ev)).take(ev.text.len() as int) == ev.text,
        away_ev_text(Some(ev)).skip(ev.text.len() as int) == if is_pick_value(ev.bits) {
            seq![' ', 'P', 'I', 'C', 'K']
        } else {
            Seq::empty()
        },
        away_ev_text(None) == seq!['-'],
        home_ev_text(None) == seq!['-'],
        ev_of(Some(f)) == f.ev,
        ev_of(None) is None,
{
    reveal_strlit("%");
    reveal_strlit("-");
    reveal_strlit(" PICK");
    assert("-"@ =~= seq!['-']);
    assert(percent_text(Some(f)) =~= f.percent.push('%'));
    assert(away_ev_text(Some(ev)).take(ev.text.len() as int) =~= ev.text);
    assert(away_ev_text(Some(ev)).skip(ev.text.len() as int) =~= if is_pick_value(ev.bits) {
        seq![' ', 'P', 'I', 'C', 'K']
    } else {
        Seq::empty()
    });
}

/// The lines of a record are the row of the away team, a line feed and the row of the home team,
/// and its picks are the lines among them that are marked.
pub proof fn law_record_holds_both_rows(game: GameView)
    ensures
        ({
            let r = record_of(game);
            let n = away_row(game).len() as int;
            &&& r.block.len() == n + 1 + home_row(game).len()
            &&& r.block.take(n) == away_row(game)
            &&& r.block[n] == '\n'
            &&& r.block.skip(n + 1) == home_row(game)
            &&& r.picks == count_picks(lines(r.block))
        }),
{
    reveal_strlit("\n");
    let r = record_of(game);
    let n = away_row(game).len() as int;
    assert(r.block.take(n) =~= away_row(game));
    assert(r.block.skip(n + 1) =~= home_row(game));
}

/// Names of up to 26 bytes fit into their rows, and longer ones where a start of them takes exactly
/// as many.
pub proof fn law_names_that_fit(game: GameView)
    ensures
        names_fit(game) <==> (byte_len(game.away.name) <= 26 || exists|k: int|
            0 <= k <= game.away.name.len() && #[trigger] byte_len(game.away.name.take(k)) == 26)
            && (byte_len(game.home.name) <= 26 || exists|k: int|
            0 <= k <= game.home.name.len() && #[trigger] byte_len(game.home.name.take(k)) == 26),
{
    law_texts_that_can_be_cut(game.away.name, 26);
    law_texts_that_can_be_cut(game.home.name, 26);
}

} // verus!
