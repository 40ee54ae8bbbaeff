//! Which rows are picks, and what is read back from the row of a pick.

use vstd::prelude::*;

use crate::bets::{is_pick_value, win_fraction};
use crate::bytes::{byte_len, can_truncate, cut_at, cut_from, law_truncated_is_a_start, truncated};
use crate::ledger::{is_day_line, is_url_line};
use crate::model::{ForecastView, GameView};
use crate::numbers::{is_digit, read_i32};
use crate::records::{
    away_ev_text, away_row, count_picks, day_key, ev_of, home_ev_text, home_row, is_moneyline,
    moneyline_from, names_fit, percent_text, pick_line, pick_line_from, pick_ml, pick_team,
    pick_team_readable, record_of, row, EV_WIDTH, NAME_WIDTH, ODDS_WIDTH,
};
use crate::results::{law_bet_goes_by_the_whole_names, same_team, settled};
use crate::round_trip::{is_block, is_record_line, is_storable};
use crate::text::{
    blanks, contains, is_space, join, lemma_split_on_nonempty, lines, occurs_at, pad_left,
    pad_right, split_on, trim, words,
};
use crate::text_facts::{
    lemma_blanks, lemma_contains_across, lemma_contains_inside, lemma_contains_pad_left,
    lemma_contains_pad_right, lemma_joined_lines, lemma_lacks, lemma_last_line_start,
    lemma_line_inside, lemma_lines_concat, lemma_not_blank, lemma_one_line, lemma_one_word,
    lemma_split_pieces, lemma_trim_space_after, lemma_words_concat, lemma_words_of_start,
    lemma_words_space_after, lemma_words_space_before, no_cr_end, no_space,
};

verus! {

/// A character that a number is written with: a digit, a sign, a point, or a letter of `NaN` and
/// `inf`.
pub open spec fn is_amount_char(c: char) -> bool {
    is_digit(c) || c == '+' || c == '-' || c == '.' || c == 'N' || c == 'a' || c == 'i' || c == 'n'
        || c == 'f'
}

/// A text that writes a number.
pub open spec fn is_amount(s: Seq<char>) -> bool {
    s.len() > 0 && (forall|i: int| 0 <= i < s.len() ==> is_amount_char(#[trigger] s[i]))
}

/// The numbers of a forecast are written as numbers.
pub open spec fn is_plain_forecast(forecast: Option<ForecastView>) -> bool {
    forecast matches Some(f) ==> is_amount(f.percent) && (f.ev matches Some(ev) ==> is_amount(
        ev.text,
    ))
}

/// The names and the moneylines of a game are one line each, and its numbers are written as
/// numbers.
pub open spec fn is_plain_game(game: GameView) -> bool {
    &&& !game.away.name.contains('\n')
    &&& !game.home.name.contains('\n')
    &&& !game.away.moneyline.contains('\n')
    &&& !game.home.moneyline.contains('\n')
    &&& is_plain_forecast(game.away_predictor)
    &&& is_plain_forecast(game.home_predictor)
}

/// No name and no moneyline of a game holds the word PICK.
pub open spec fn lacks_pick_word(game: GameView) -> bool {
    &&& !contains(game.away.name, "PICK"@)
    &&& !contains(game.home.name, "PICK"@)
    &&& !contains(game.away.moneyline, "PICK"@)
    &&& !contains(game.home.moneyline, "PICK"@)
}

/// A bet on the away team is a pick.
pub open spec fn is_away_pick(game: GameView) -> bool {
    ev_of(game.away_predictor) matches Some(ev) && is_pick_value(ev.bits)
}

pub(crate) proof fn lemma_amount(s: Seq<char>)
    requires
        is_amount(s),
    ensures
        no_space(s),
        !s.contains('\n'),
        !s.contains('P'),
        s.last() != '=',
        s.last() != ']',
{
    assert(is_amount_char(s[s.len() - 1]));
    assert forall|i: int| 0 <= i < s.len() implies !is_space(#[trigger] s[i]) by {
        assert(is_amount_char(s[i]));
    }
    assert forall|i: int| 0 <= i < s.len() implies s[i] != '\n' && s[i] != 'P' by {
        assert(is_amount_char(s[i]));
    }
}

/// A shown number is not empty, holds no line feed and ends in a character that ends neither a
/// heading nor an address.
spec fn is_good_end(s: Seq<char>) -> bool {
    &&& s.len() > 0
    &&& !is_space(s.last())
    &&& s.last() != '='
    &&& s.last() != ']'
    &&& !s.contains('\n')
}

proof fn lemma_shown(forecast: Option<ForecastView>)
    requires
        is_plain_forecast(forecast),
    ensures
        is_good_end(away_ev_text(ev_of(forecast))),
        is_good_end(home_ev_text(ev_of(forecast))),
        !percent_text(forecast).contains('\n'),
        !percent_text(forecast).contains('P'),
        !home_ev_text(ev_of(forecast)).contains('P'),
        contains(away_ev_text(ev_of(forecast)), "PICK"@) <==> (ev_of(forecast) matches Some(ev)
            && is_pick_value(ev.bits)),
{
    reveal_strlit("-");
    reveal_strlit("%");
    reveal_strlit(" PICK");
    reveal_strlit("PICK");
    let away = away_ev_text(ev_of(forecast));
    if let Some(f) = forecast {
        lemma_amount(f.percent);
        if let Some(ev) = f.ev {
            lemma_amount(ev.text);
            assert(!is_space(ev.text[ev.text.len() - 1]));
            if is_pick_value(ev.bits) {
                let n = ev.text.len() as int;
                assert(away.subrange(n + 1, n + 5) =~= "PICK"@);
                assert(occurs_at(away, n + 1, "PICK"@));
            } else {
                lemma_lacks(away, "PICK"@);
            }
        } else {
            lemma_lacks(away, "PICK"@);
        }
    } else {
        lemma_lacks(away, "PICK"@);
    }
}

proof fn lemma_truncated_lacks(s: Seq<char>, max: int)
    requires
        can_truncate(s, max),
    ensures
        !s.contains('\n') ==> !truncated(s, max).contains('\n'),
        !contains(s, "PICK"@) ==> !contains(truncated(s, max), "PICK"@),
{
    law_truncated_is_a_start(s, max);
    let t = truncated(s, max);
    if t.contains('\n') {
        let i = choose|i: int| 0 <= i < t.len() && t[i] == '\n';
        assert(s[i] == '\n');
    }
    if contains(t, "PICK"@) {
        let i = choose|i: int| occurs_at(t, i, "PICK"@);
        assert(s.subrange(i, i + "PICK"@.len()) =~= t.subrange(i, i + "PICK"@.len()));
        assert(occurs_at(s, i, "PICK"@));
    }
}

/// A row as its four fields with a blank between each two.
proof fn lemma_row_fields(
    name: Seq<char>,
    moneyline: Seq<char>,
    percent: Seq<char>,
    ev: Seq<char>,
)
    ensures
        row(name, moneyline, percent, ev) == pad_right(name, NAME_WIDTH as int).push(' ') + (
        pad_left(moneyline, ODDS_WIDTH as int).push(' ') + (pad_left(
            percent,
            ODDS_WIDTH as int,
        ).push(' ') + pad_left(ev, EV_WIDTH as int))),
{
    reveal_strlit(" ");
    assert(row(name, moneyline, percent, ev) =~= pad_right(name, NAME_WIDTH as int).push(' ') + (
    pad_left(moneyline, ODDS_WIDTH as int).push(' ') + (pad_left(percent, ODDS_WIDTH as int).push(
        ' ',
    ) + pad_left(ev, EV_WIDTH as int))));
}

/// A word without blanks stands in a row where it stands in one of the fields.
proof fn lemma_row_contains(
    name: Seq<char>,
    moneyline: Seq<char>,
    percent: Seq<char>,
    ev: Seq<char>,
    pat: Seq<char>,
)
    requires
        pat.len() > 0,
        !pat.contains(' '),
    ensures
        contains(row(name, moneyline, percent, ev), pat) <==> (contains(name, pat) || contains(
            moneyline,
            pat,
        ) || contains(percent, pat) || contains(ev, pat)),
{
    let a = pad_right(name, NAME_WIDTH as int);
    let b = pad_left(moneyline, ODDS_WIDTH as int);
    let c = pad_left(percent, ODDS_WIDTH as int);
    let d = pad_left(ev, EV_WIDTH as int);
    lemma_row_fields(name, moneyline, percent, ev);
    lemma_contains_across(a, ' ', b.push(' ') + (c.push(' ') + d), pat);
    lemma_contains_across(b, ' ', c.push(' ') + d, pat);
    lemma_contains_across(c, ' ', d, pat);
    lemma_contains_pad_right(name, NAME_WIDTH as int, pat);
    lemma_contains_pad_left(moneyline, ODDS_WIDTH as int, pat);
    lemma_contains_pad_left(percent, ODDS_WIDTH as int, pat);
    lemma_contains_pad_left(ev, EV_WIDTH as int, pat);
}

/// `contains` of one character is that the text holds it.
proof fn lemma_holds_char(s: Seq<char>, c: char)
    ensures
        contains(s, seq![c]) <==> s.contains(c),
{
    if contains(s, seq![c]) {
        let i = choose|i: int| occurs_at(s, i, seq![c]);
        assert(s.subrange(i, i + 1)[0] == s[i]);
        assert(s[i] == c);
    }
    if s.contains(c) {
        let i = choose|i: int| 0 <= i < s.len() && s[i] == c;
        assert(s.subrange(i, i + 1) =~= seq![c]);
        assert(occurs_at(s, i, seq![c]));
    }
}

/// A row whose fields are one line each is one line that reads back as the line of a record.
proof fn lemma_row_line(
    name: Seq<char>,
    moneyline: Seq<char>,
    percent: Seq<char>,
    ev: Seq<char>,
)
    requires
        !name.contains('\n'),
        !moneyline.contains('\n'),
        !percent.contains('\n'),
        is_good_end(ev),
    ensures
        ({
            let l = row(name, moneyline, percent, ev);
            &&& !l.contains('\n')
            &&& l.len() > 0
            &&& !is_space(l.last())
            &&& is_record_line(l)
        }),
{
    let l = row(name, moneyline, percent, ev);
    let feed = seq!['\n'];
    lemma_row_contains(name, moneyline, percent, ev, feed);
    lemma_holds_char(l, '\n');
    lemma_holds_char(name, '\n');
    lemma_holds_char(moneyline, '\n');
    lemma_holds_char(percent, '\n');
    lemma_holds_char(ev, '\n');
    lemma_row_fields(name, moneyline, percent, ev);
    assert(l.last() == ev.last());
    lemma_not_blank(l);
    reveal_strlit(" ===");
    if is_day_line(l) {
        assert(l.subrange(l.len() - 4, l.len() as int)[3] == l[l.len() - 1]);
    }
    if is_url_line(l) {
        assert(l.subrange(l.len() - 1, l.len() as int)[0] == l[l.len() - 1]);
    }
}

/// The lines of a record are the rows of the two teams.
pub(crate) proof fn lemma_rows(game: GameView)
    requires
        is_plain_game(game),
        names_fit(game),
    ensures
        ({
            let block = record_of(game).block;
            &&& lines(block) == seq![away_row(game), home_row(game)]
            &&& is_block(block)
        }),
        !is_space(away_row(game).last()),
        away_row(game).len() > 0,
        !away_row(game).contains('\n'),
        !is_space(home_row(game).last()),
        home_row(game).len() > 0,
        !home_row(game).contains('\n'),
{
    let away = away_row(game);
    let home = home_row(game);
    let block = record_of(game).block;
    lemma_shown(game.away_predictor);
    lemma_shown(game.home_predictor);
    lemma_truncated_lacks(game.away.name, NAME_WIDTH as int);
    lemma_truncated_lacks(game.home.name, NAME_WIDTH as int);
    lemma_row_line(
        truncated(game.away.name, NAME_WIDTH as int),
        game.away.moneyline,
        percent_text(game.away_predictor),
        away_ev_text(ev_of(game.away_predictor)),
    );
    lemma_row_line(
        truncated(game.home.name, NAME_WIDTH as int),
        game.home.moneyline,
        percent_text(game.home_predictor),
        home_ev_text(ev_of(game.home_predictor)),
    );
    let two = seq![away, home];
    reveal_strlit("\n");
    assert(two.drop_last() =~= seq![away]);
    assert(join(two.drop_last(), "\n"@) == away);
    assert(join(two, "\n"@) =~= block);
    lemma_joined_lines(two);
    assert(block.last() == home.last());
}

/// The row of a pick ends in the word PICK.
pub(crate) proof fn lemma_row_end(game: GameView)
    requires
        is_away_pick(game),
    ensures
        away_row(game).last() == 'K',
{
    reveal_strlit(" PICK");
    lemma_row_fields(
        truncated(game.away.name, NAME_WIDTH as int),
        game.away.moneyline,
        percent_text(game.away_predictor),
        away_ev_text(ev_of(game.away_predictor)),
    );
}

/// The record of a game with an address can be kept in the picks file.
pub proof fn law_game_records_are_storable(game: GameView)
    requires
        is_plain_game(game),
        names_fit(game),
        game.game_url.len() > 0,
        !game.game_url.contains('\n'),
        !game.time.contains('\n'),
    ensures
        is_storable(record_of(game)),
{
    lemma_rows(game);
    let p = split_on(game.time, ' ');
    lemma_split_on_nonempty(game.time, ' ');
    lemma_split_pieces(game.time, ' ', 0);
    reveal_strlit(" ");
    let key = day_key(game.time);
    if p.len() > 1 {
        lemma_split_pieces(game.time, ' ', 1);
    }
    if key.contains('\n') {
        let i = choose|i: int| 0 <= i < key.len() && key[i] == '\n';
        if i < p[0].len() {
            assert(p[0][i] == '\n');
            assert(p[0].contains('\n'));
        } else if i > p[0].len() {
            assert(p[1][i - p[0].len() - 1] == '\n');
            assert(p[1].contains('\n'));
        }
    }
}

/// The row of the away team without the expected value at its end.
spec fn row_head(game: GameView) -> Seq<char> {
    pad_right(truncated(game.away.name, NAME_WIDTH as int), NAME_WIDTH as int).push(' ') + pad_left(
        game.away.moneyline,
        ODDS_WIDTH as int,
    ).push(' ') + pad_left(percent_text(game.away_predictor), ODDS_WIDTH as int).push(' ')
}

/// The expected value at the end of the row of the away team.
spec fn row_tail(game: GameView) -> Seq<char> {
    pad_left(away_ev_text(ev_of(game.away_predictor)), EV_WIDTH as int)
}

/// The lines of a record with `rest` after the row of the away team.
pub open spec fn block_with(game: GameView, rest: Seq<char>) -> Seq<char> {
    away_row(game) + rest + "\n"@ + home_row(game)
}

proof fn lemma_away_row(game: GameView)
    requires
        names_fit(game),
        is_plain_forecast(game.away_predictor),
        !contains(game.away.name, "PICK"@),
        !contains(game.away.moneyline, "PICK"@),
    ensures
        away_row(game) == row_head(game) + row_tail(game),
        !contains(row_head(game), "PICK"@),
        contains(row_tail(game), "PICK"@) <==> is_away_pick(game),
        contains(away_row(game), "PICK"@) <==> is_away_pick(game),
        !row_tail(game).contains('\n'),
        row_tail(game).len() > 0,
        !is_space(row_tail(game).last()),
{
    let name = truncated(game.away.name, NAME_WIDTH as int);
    let ml = game.away.moneyline;
    let percent = percent_text(game.away_predictor);
    let ev = away_ev_text(ev_of(game.away_predictor));
    lemma_shown(game.away_predictor);
    lemma_truncated_lacks(game.away.name, NAME_WIDTH as int);
    reveal_strlit("PICK");
    lemma_lacks(percent, "PICK"@);
    lemma_row_contains(name, ml, percent, ev, "PICK"@);
    lemma_row_fields(name, ml, percent, ev);
    lemma_contains_pad_left(ev, EV_WIDTH as int, "PICK"@);
    let a = pad_right(name, NAME_WIDTH as int);
    let b = pad_left(ml, ODDS_WIDTH as int);
    let c = pad_left(percent, ODDS_WIDTH as int);
    let none = Seq::<char>::empty();
    assert(row_head(game) =~= a.push(' ') + (b.push(' ') + (c.push(' ') + none)));
    lemma_contains_across(a, ' ', b.push(' ') + (c.push(' ') + none), "PICK"@);
    lemma_contains_across(b, ' ', c.push(' ') + none, "PICK"@);
    lemma_contains_across(c, ' ', none, "PICK"@);
    lemma_lacks(none, "PICK"@);
    lemma_contains_pad_right(name, NAME_WIDTH as int, "PICK"@);
    lemma_contains_pad_left(ml, ODDS_WIDTH as int, "PICK"@);
    lemma_contains_pad_left(percent, ODDS_WIDTH as int, "PICK"@);
    assert(away_row(game) =~= row_head(game) + row_tail(game));
    assert forall|i: int| 0 <= i < row_tail(game).len() implies row_tail(game)[i] != '\n' by {
        let gap = row_tail(game).len() - ev.len();
        if i >= gap {
            assert(row_tail(game)[i] == ev[i - gap]);
        }
    }
}

proof fn lemma_home_row(game: GameView)
    requires
        names_fit(game),
        is_plain_forecast(game.home_predictor),
        !contains(game.home.name, "PICK"@),
        !contains(game.home.moneyline, "PICK"@),
    ensures
        !contains(home_row(game), "PICK"@),
{
    lemma_shown(game.home_predictor);
    lemma_truncated_lacks(game.home.name, NAME_WIDTH as int);
    reveal_strlit("PICK");
    lemma_lacks(percent_text(game.home_predictor), "PICK"@);
    lemma_lacks(home_ev_text(ev_of(game.home_predictor)), "PICK"@);
    lemma_row_contains(
        truncated(game.home.name, NAME_WIDTH as int),
        game.home.moneyline,
        percent_text(game.home_predictor),
        home_ev_text(ev_of(game.home_predictor)),
        "PICK"@,
    );
}

/// The lines of a block: those before the line that the away row ends in, that line, and those of
/// the home row. `n` is the length of the text of the first.
proof fn lemma_block_lines(game: GameView, rest: Seq<char>) -> (n: int)
    requires
        names_fit(game),
        is_plain_forecast(game.away_predictor),
        !contains(game.away.name, "PICK"@),
        !contains(game.away.moneyline, "PICK"@),
        !rest.contains('\n'),
        no_cr_end(rest),
    ensures
        ({
            let head = row_head(game);
            let line = head.skip(n) + row_tail(game) + rest;
            &&& 0 <= n <= head.len()
            &&& n > 0 ==> head[n - 1] == '\n'
            &&& !head.skip(n).contains('\n')
            &&& lines(block_with(game, rest)) == lines(head.take(n)) + (seq![line] + lines(
                home_row(game),
            ))
            &&& forall|i: int|
                0 <= i < lines(head.take(n)).len() ==> !contains(
                    #[trigger] lines(head.take(n))[i],
                    "PICK"@,
                )
            &&& contains(line, "PICK"@) <== is_away_pick(game)
            &&& away_row(game) + rest == head.take(n) + line
        }),
{
    lemma_away_row(game);
    reveal_strlit("\n");
    let head = row_head(game);
    let tail = row_tail(game);
    let n = lemma_last_line_start(head);
    let before = head.take(n);
    let q = head.skip(n);
    let line = q + tail + rest;
    let home = home_row(game);
    assert(head =~= before + q);
    assert(away_row(game) + rest =~= before + line);
    assert(block_with(game, rest) =~= before + (line.push('\n') + home));
    assert forall|i: int| 0 <= i < line.len() implies line[i] != '\n' by {
        if i < q.len() {
            assert(q[i] != '\n');
        } else if i < q.len() + tail.len() {
            assert(tail[i - q.len()] != '\n');
        } else {
            assert(rest[i - q.len() - tail.len()] != '\n');
        }
    }
    assert(no_cr_end(line)) by {
        if rest.len() == 0 {
            assert(line.last() == tail.last());
        } else {
            assert(line.last() == rest.last());
        }
    }
    lemma_one_line(line);
    lemma_lines_concat(before, line.push('\n') + home);
    lemma_lines_concat(line.push('\n'), home);
    assert forall|i: int| 0 <= i < lines(before).len() implies !contains(
        #[trigger] lines(before)[i],
        "PICK"@,
    ) by {
        if contains(lines(before)[i], "PICK"@) {
            lemma_line_inside(before, i, "PICK"@);
            lemma_contains_inside(Seq::empty(), before, q, "PICK"@);
            assert(Seq::<char>::empty() + before + q =~= head);
        }
    }
    if is_away_pick(game) {
        lemma_contains_inside(q, tail, rest, "PICK"@);
    }
    n
}

proof fn lemma_count_concat(a: Seq<Seq<char>>, b: Seq<Seq<char>>)
    ensures
        count_picks(a + b) == count_picks(a) + count_picks(b),
    decreases b.len(),
{
    if b.len() == 0 {
        assert(a + b =~= a);
    } else {
        lemma_count_concat(a, b.drop_last());
        assert((a + b).drop_last() =~= a + b.drop_last());
    }
}

proof fn lemma_count_none(ls: Seq<Seq<char>>)
    requires
        forall|i: int| 0 <= i < ls.len() ==> !contains(#[trigger] ls[i], "PICK"@),
    ensures
        count_picks(ls) == 0,
    decreases ls.len(),
{
    if ls.len() > 0 {
        let d = ls.drop_last();
        assert forall|i: int| 0 <= i < d.len() implies !contains(#[trigger] d[i], "PICK"@) by {
            assert(d[i] == ls[i]);
        }
        lemma_count_none(d);
        assert(!contains(ls[ls.len() - 1], "PICK"@));
    }
}

/// Only the away team can be a pick: its row holds the word PICK where the expected value of a bet
/// on it is from 8.1 to 19.9, and the row of the home team never holds it.
pub proof fn law_only_the_away_team_is_picked(game: GameView)
    requires
        is_plain_forecast(game.away_predictor),
        is_plain_forecast(game.home_predictor),
        names_fit(game),
        lacks_pick_word(game),
    ensures
        contains(away_row(game), "PICK"@) <==> is_away_pick(game),
        !contains(home_row(game), "PICK"@),
        record_of(game).picks == if is_away_pick(game) {
            1int
        } else {
            0int
        },
{
    lemma_away_row(game);
    lemma_home_row(game);
    let none = Seq::<char>::empty();
    let n = lemma_block_lines(game, none);
    let head = row_head(game);
    let line = head.skip(n) + row_tail(game) + none;
    let home = lines(home_row(game));
    assert(block_with(game, none) =~= record_of(game).block);
    lemma_count_none(lines(head.take(n)));
    assert forall|i: int| 0 <= i < home.len() implies !contains(#[trigger] home[i], "PICK"@) by {
        if contains(home[i], "PICK"@) {
            lemma_line_inside(home_row(game), i, "PICK"@);
        }
    }
    lemma_count_none(home);
    lemma_count_concat(lines(head.take(n)), seq![line] + home);
    lemma_count_concat(seq![line], home);
    assert(seq![line].drop_last() =~= Seq::<Seq<char>>::empty());
    assert(count_picks(Seq::<Seq<char>>::empty()) == 0);
    if !is_away_pick(game) && contains(line, "PICK"@) {
        lemma_contains_inside(head.take(n), line, none, "PICK"@);
        assert(head.take(n) + line + none =~= away_row(game));
    }
}

pub(crate) proof fn lemma_byte_len_concat(a: Seq<char>, b: Seq<char>)
    ensures
        byte_len(a + b) == byte_len(a) + byte_len(b),
    decreases b.len(),
{
    if b.len() == 0 {
        assert(a + b =~= a);
    } else {
        lemma_byte_len_concat(a, b.drop_last());
        assert((a + b).drop_last() =~= a + b.drop_last());
    }
}

proof fn lemma_byte_len_blanks(n: int)
    requires
        n >= 0,
    ensures
        byte_len(blanks(n)) == n,
    decreases n,
{
    if n > 0 {
        assert(blanks(n).drop_last() =~= blanks(n - 1));
        lemma_byte_len_blanks(n - 1);
    }
}

pub(crate) proof fn lemma_byte_len_not_short(s: Seq<char>)
    ensures
        byte_len(s) >= s.len(),
    decreases s.len(),
{
    if s.len() > 0 {
        lemma_byte_len_not_short(s.drop_last());
    }
}

pub(crate) proof fn lemma_cut_found(s: Seq<char>, k: int, j: int)
    requires
        0 <= j <= k <= s.len(),
    ensures
        cut_from(s, byte_len(s.take(k)), j) == Some(k),
    decreases k - j,
{
    if j < k {
        lemma_byte_len_concat(s.take(j), s.subrange(j, k));
        assert(s.take(j) + s.subrange(j, k) =~= s.take(k));
        lemma_byte_len_not_short(s.subrange(j, k));
        lemma_cut_found(s, k, j + 1);
    }
}

/// Cutting a row at the width of a name gives the name, with blanks after it where it takes fewer
/// bytes.
proof fn lemma_name_of_row(
    name: Seq<char>,
    moneyline: Seq<char>,
    percent: Seq<char>,
    ev: Seq<char>,
    rest: Seq<char>,
)
    requires
        byte_len(name) <= NAME_WIDTH,
    ensures
        ({
            let l = row(name, moneyline, percent, ev) + rest;
            &&& cut_at(l, NAME_WIDTH as int) is Some
            &&& can_truncate(l, NAME_WIDTH as int)
            &&& trim(truncated(l, NAME_WIDTH as int)) == trim(name)
        }),
{
    let l = row(name, moneyline, percent, ev) + rest;
    let w = NAME_WIDTH as int;
    lemma_byte_len_not_short(name);
    let free = w - byte_len(name);
    let start = name + blanks(free);
    let k = start.len() as int;
    lemma_row_fields(name, moneyline, percent, ev);
    reveal_strlit(" ");
    assert(pad_right(name, w) =~= name + blanks(w - name.len()));
    assert(l.take(k) =~= start);
    lemma_byte_len_blanks(free);
    lemma_byte_len_concat(name, blanks(free));
    lemma_cut_found(l, k, 0);
    assert(byte_len(l) > w) by {
        assert(l =~= l.take(k) + l.skip(k));
        lemma_byte_len_concat(l.take(k), l.skip(k));
        lemma_byte_len_not_short(l.skip(k));
        assert(l.len() > k);
    }
    lemma_blanks(free);
    lemma_trim_space_after(name, blanks(free));
}

/// The words of a row are those of its fields.
pub(crate) proof fn lemma_row_words(
    name: Seq<char>,
    moneyline: Seq<char>,
    percent: Seq<char>,
    ev: Seq<char>,
)
    ensures
        words(row(name, moneyline, percent, ev)) == words(name) + (words(moneyline) + (words(
            percent,
        ) + words(ev))),
{
    let a = pad_right(name, NAME_WIDTH as int);
    let b = pad_left(moneyline, ODDS_WIDTH as int);
    let c = pad_left(percent, ODDS_WIDTH as int);
    let d = pad_left(ev, EV_WIDTH as int);
    lemma_row_fields(name, moneyline, percent, ev);
    lemma_words_concat(a.push(' '), b.push(' ') + (c.push(' ') + d));
    lemma_words_concat(b.push(' '), c.push(' ') + d);
    lemma_words_concat(c.push(' '), d);
    let one = seq![' '];
    assert(a.push(' ') =~= a + one);
    assert(b.push(' ') =~= b + one);
    assert(c.push(' ') =~= c + one);
    lemma_words_space_after(a, one);
    lemma_words_space_after(b, one);
    lemma_words_space_after(c, one);
    lemma_words_pad_right(name, NAME_WIDTH as int);
    lemma_words_pad_left(moneyline, ODDS_WIDTH as int);
    lemma_words_pad_left(percent, ODDS_WIDTH as int);
    lemma_words_pad_left(ev, EV_WIDTH as int);
}

proof fn lemma_words_pad_right(s: Seq<char>, width: int)
    ensures
        words(pad_right(s, width)) == words(s),
{
    lemma_blanks(width - s.len());
    lemma_words_space_after(s, blanks(width - s.len()));
}

proof fn lemma_words_pad_left(s: Seq<char>, width: int)
    ensures
        words(pad_left(s, width)) == words(s),
{
    lemma_blanks(width - s.len());
    lemma_words_space_before(blanks(width - s.len()), s);
}

pub(crate) proof fn lemma_moneyline_found(ws: Seq<Seq<char>>, k: int, j: int)
    requires
        0 <= j <= k < ws.len(),
        is_moneyline(ws[k]),
        forall|i: int| j <= i < k ==> !is_moneyline(#[trigger] ws[i]),
    ensures
        moneyline_from(ws, j) == Some(ws[k]),
    decreases k - j,
{
    if j < k {
        assert(!is_moneyline(ws[j]));
        lemma_moneyline_found(ws, k, j + 1);
    }
}

/// The bet of a game can be read from its row: no word of the name looks like a moneyline, and the
/// moneyline does.
pub open spec fn is_readable_bet(game: GameView) -> bool {
    let name = truncated(game.away.name, NAME_WIDTH as int);
    &&& forall|i: int| 0 <= i < words(name).len() ==> !is_moneyline(#[trigger] words(name)[i])
    &&& is_moneyline(game.away.moneyline)
    &&& no_space(game.away.moneyline)
}

/// The words of the row of the away team: those of its name, its moneyline, and others.
proof fn lemma_row_and_rest_words(game: GameView, rest: Seq<char>)
    requires
        is_readable_bet(game),
        rest.len() == 0 || rest[0] == ' ',
    ensures
        ({
            let name = words(truncated(game.away.name, NAME_WIDTH as int));
            let all = words(away_row(game) + rest);
            &&& all.len() > name.len()
            &&& forall|i: int| 0 <= i < name.len() ==> #[trigger] all[i] == name[i]
            &&& all[name.len() as int] == game.away.moneyline
        }),
{
    let name = truncated(game.away.name, NAME_WIDTH as int);
    let ml = game.away.moneyline;
    let percent = percent_text(game.away_predictor);
    let ev = away_ev_text(ev_of(game.away_predictor));
    let l = away_row(game) + rest;
    lemma_row_words(name, ml, percent, ev);
    lemma_one_word(ml);
    let tail = if rest.len() == 0 {
        assert(l =~= away_row(game));
        Seq::<Seq<char>>::empty()
    } else {
        let one = seq![' '];
        assert(l =~= (away_row(game) + one) + rest.skip(1));
        lemma_words_concat(away_row(game) + one, rest.skip(1));
        lemma_words_space_after(away_row(game), one);
        words(rest.skip(1))
    };
    assert(words(l) =~= words(name) + (seq![ml] + (words(percent) + words(ev))) + tail);
}

/// What is read from the row of the away team, with or without a result after it.
pub(crate) proof fn lemma_read_row(game: GameView, rest: Seq<char>)
    requires
        names_fit(game),
        rest.len() == 0 || rest[0] == ' ',
    ensures
        ({
            let l = away_row(game) + rest;
            &&& cut_at(l, NAME_WIDTH as int) is Some
            &&& can_truncate(l, NAME_WIDTH as int)
            &&& trim(truncated(l, NAME_WIDTH as int)) == trim(
                truncated(game.away.name, NAME_WIDTH as int),
            )
            &&& is_readable_bet(game) ==> moneyline_from(words(l), 0) == Some(game.away.moneyline)
        }),
{
    let name = truncated(game.away.name, NAME_WIDTH as int);
    law_truncated_is_a_start(game.away.name, NAME_WIDTH as int);
    lemma_name_of_row(
        name,
        game.away.moneyline,
        percent_text(game.away_predictor),
        away_ev_text(ev_of(game.away_predictor)),
        rest,
    );
    if is_readable_bet(game) {
        lemma_row_and_rest_words(game, rest);
        let ws = words(away_row(game) + rest);
        let k = words(name).len() as int;
        assert forall|i: int| 0 <= i < k implies !is_moneyline(#[trigger] ws[i]) by {
            assert(ws[i] == words(name)[i]);
        }
        lemma_moneyline_found(ws, k, 0);
    }
}

pub(crate) proof fn lemma_pick_line_found(ls: Seq<Seq<char>>, k: int, j: int)
    requires
        0 <= j <= k < ls.len(),
        contains(ls[k], "PICK"@),
        forall|i: int| j <= i < k ==> !contains(#[trigger] ls[i], "PICK"@),
    ensures
        pick_line_from(ls, j) == Some(ls[k]),
    decreases k - j,
{
    if j < k {
        assert(!contains(ls[j], "PICK"@));
        lemma_pick_line_found(ls, k, j + 1);
    }
}

/// The line of the pick is the line that the away row ends in.
proof fn lemma_line_of_pick(game: GameView, rest: Seq<char>) -> (n: int)
    requires
        names_fit(game),
        is_plain_forecast(game.away_predictor),
        !contains(game.away.name, "PICK"@),
        !contains(game.away.moneyline, "PICK"@),
        is_away_pick(game),
        !rest.contains('\n'),
        no_cr_end(rest),
    ensures
        ({
            let head = row_head(game);
            let line = head.skip(n) + row_tail(game) + rest;
            &&& 0 <= n <= head.len()
            &&& n > 0 ==> head[n - 1] == '\n'
            &&& pick_line(block_with(game, rest)) == Some(line)
            &&& away_row(game) + rest == head.take(n) + line
        }),
{
    let n = lemma_block_lines(game, rest);
    let before = lines(row_head(game).take(n));
    let ls = lines(block_with(game, rest));
    let k = before.len() as int;
    assert forall|i: int| 0 <= i < k implies !contains(#[trigger] ls[i], "PICK"@) by {
        assert(ls[i] == before[i]);
    }
    lemma_pick_line_found(ls, k, 0);
    n
}

/// The team of a pick is read back from its record, as far as the name goes in a row, with or
/// without a result after its row. A game is left out where the name or the moneyline of the away
/// team is more than one line.
pub proof fn law_pick_team_reads_back(game: GameView, rest: Seq<char>)
    requires
        is_plain_forecast(game.away_predictor),
        is_plain_forecast(game.home_predictor),
        names_fit(game),
        lacks_pick_word(game),
        record_of(game).picks == 1,
        !game.away.name.contains('\n'),
        !game.away.moneyline.contains('\n'),
        rest.len() == 0 || rest[0] == ' ',
        !rest.contains('\n'),
        no_cr_end(rest),
    ensures
        ({
            let block = block_with(game, rest);
            &&& pick_team_readable(block)
            &&& pick_team(block) == Some(trim(truncated(game.away.name, NAME_WIDTH as int)))
        }),
{
    law_only_the_away_team_is_picked(game);
    let n = lemma_line_of_pick(game, rest);
    let head = row_head(game);
    lemma_head_feeds(game);
    let line = head.skip(n) + row_tail(game) + rest;
    assert(n == 0) by {
        if n > 0 {
            let i = n - 1;
            assert(head.contains(head[i]));
        }
    }
    assert(head.take(0) + line =~= line);
    lemma_read_row(game, rest);
}

/// Line feeds before the expected value stand in the name or in the moneyline.
proof fn lemma_head_feeds(game: GameView)
    requires
        names_fit(game),
        is_plain_forecast(game.away_predictor),
    ensures
        ({
            let name = truncated(game.away.name, NAME_WIDTH as int);
            forall|i: int|
                0 <= i < row_head(game).len() && #[trigger] row_head(game)[i] == '\n'
                    && !game.away.moneyline.contains('\n') ==> i < name.len() && name[i] == '\n'
                    && game.away.name.contains('\n')
        }),
{
    let name = truncated(game.away.name, NAME_WIDTH as int);
    let ml = game.away.moneyline;
    let percent = percent_text(game.away_predictor);
    let head = row_head(game);
    lemma_shown(game.away_predictor);
    law_truncated_is_a_start(game.away.name, NAME_WIDTH as int);
    let a = pad_right(name, NAME_WIDTH as int);
    let b = pad_left(ml, ODDS_WIDTH as int);
    let c = pad_left(percent, ODDS_WIDTH as int);
    assert forall|i: int|
        0 <= i < head.len() && #[trigger] head[i] == '\n' && !ml.contains('\n') implies i
        < name.len() && name[i] == '\n' && game.away.name.contains('\n') by {
        let m = a.len() + 1;
        let k = m + b.len() + 1;
        if i < a.len() {
            assert(head[i] == a[i]);
            assert(game.away.name[i] == name[i]);
        } else if m <= i < m + b.len() {
            assert(head[i] == b[i - m]);
            let gap = b.len() - ml.len();
            if i - m >= gap {
                assert(ml[i - m - gap] == '\n');
            }
        } else if k <= i < k + c.len() {
            assert(head[i] == c[i - k]);
            let gap = c.len() - percent.len();
            if i - k >= gap {
                assert(percent[i - k - gap] == '\n');
            }
        }
    }
}

/// No word of a name starts with a sign.
pub open spec fn lacks_signed_words(name: Seq<char>) -> bool {
    forall|i: int|
        0 <= i < words(name).len() ==> (#[trigger] words(name)[i])[0] != '+' && words(name)[i][0]
            != '-'
}

/// A bet can be read from its row where no word of the name starts with a sign.
proof fn lemma_readable_bet(game: GameView)
    requires
        names_fit(game),
        lacks_signed_words(game.away.name),
        is_moneyline(game.away.moneyline),
        no_space(game.away.moneyline),
    ensures
        is_readable_bet(game),
{
    law_truncated_is_a_start(game.away.name, NAME_WIDTH as int);
    let name = truncated(game.away.name, NAME_WIDTH as int);
    assert forall|i: int| 0 <= i < words(name).len() implies !is_moneyline(
        #[trigger] words(name)[i],
    ) by {
        let j = lemma_words_of_start(game.away.name, name.len() as int, i);
        assert(words(game.away.name)[j][0] != '+' && words(game.away.name)[j][0] != '-');
    }
}

/// The moneyline of a pick is read back from its record, with or without a result after its row:
/// never the chance, the expected value or the profit. The moneyline is one word.
pub proof fn law_pick_moneyline_reads_back(game: GameView, rest: Seq<char>)
    requires
        is_plain_forecast(game.away_predictor),
        is_plain_forecast(game.home_predictor),
        names_fit(game),
        lacks_pick_word(game),
        record_of(game).picks == 1,
        lacks_signed_words(game.away.name),
        is_moneyline(game.away.moneyline),
        no_space(game.away.moneyline),
        rest.len() == 0 || rest[0] == ' ',
        !rest.contains('\n'),
        no_cr_end(rest),
    ensures
        pick_ml(block_with(game, rest)) == Some(game.away.moneyline),
{
    law_only_the_away_team_is_picked(game);
    lemma_readable_bet(game);
    lemma_moneyline_of_block(game, rest);
}

/// The moneyline of a pick is read from the line that its row ends in.
proof fn lemma_moneyline_of_block(game: GameView, rest: Seq<char>)
    requires
        is_plain_forecast(game.away_predictor),
        names_fit(game),
        !contains(game.away.name, "PICK"@),
        !contains(game.away.moneyline, "PICK"@),
        is_away_pick(game),
        is_readable_bet(game),
        rest.len() == 0 || rest[0] == ' ',
        !rest.contains('\n'),
        no_cr_end(rest),
    ensures
        pick_ml(block_with(game, rest)) == Some(game.away.moneyline),
{
    let n = lemma_line_of_pick(game, rest);
    let head = row_head(game);
    let line = head.skip(n) + row_tail(game) + rest;
    let name = truncated(game.away.name, NAME_WIDTH as int);
    let ml = game.away.moneyline;
    let before = head.take(n);
    lemma_head_feeds(game);
    assert(!ml.contains('\n')) by {
        if ml.contains('\n') {
            let i = choose|i: int| 0 <= i < ml.len() && ml[i] == '\n';
            assert(!is_space(ml[i]));
        }
    }
    assert(n <= name.len()) by {
        if n > 0 {
            assert(head[n - 1] == '\n');
        }
    }
    let post = name.skip(n);
    assert(before =~= name.take(n)) by {
        assert forall|i: int| 0 <= i < n implies before[i] == name[i] by {
            assert(pad_right(name, NAME_WIDTH as int)[i] == name[i]);
        }
    }
    assert(name =~= before + post);
    if n > 0 {
        assert(is_space(before.last()));
    }
    lemma_words_concat(before, post);
    lemma_words_concat(before, line);
    lemma_row_and_rest_words(game, rest);
    let all = words(away_row(game) + rest);
    let k = words(before).len() as int;
    let ws = words(line);
    let m = words(post).len() as int;
    assert(all == words(before) + ws);
    assert(all[words(name).len() as int] == ml);
    assert(ws.len() > m && ws[m] == ml) by {
        assert(all[k + m] == ws[m]);
    }
    assert forall|i: int| 0 <= i < m implies !is_moneyline(#[trigger] ws[i]) by {
        assert(all[k + i] == ws[i]);
        assert(words(name)[k + i] == all[k + i]);
    }
    lemma_moneyline_found(ws, m, 0);
}

/// A block without a line that holds the word PICK has no pick to read.
pub proof fn law_no_pick_no_bet(block: Seq<char>)
    requires
        forall|i: int|
            0 <= i < lines(block).len() ==> !contains(#[trigger] lines(block)[i], "PICK"@),
    ensures
        pick_team_readable(block),
        pick_team(block) is None,
        pick_ml(block) is None,
{
    lemma_no_pick_line(lines(block), 0);
}

pub(crate) proof fn lemma_no_pick_line(ls: Seq<Seq<char>>, j: int)
    requires
        0 <= j,
        forall|i: int| 0 <= i < ls.len() ==> !contains(#[trigger] ls[i], "PICK"@),
    ensures
        pick_line_from(ls, j) is None,
    decreases ls.len() - j,
{
    if j < ls.len() {
        assert(!contains(ls[j], "PICK"@));
        lemma_no_pick_line(ls, j + 1);
    }
}

/// The team and the moneyline of a pick are read back from its record, as far as the name goes in
/// a row.
pub proof fn law_pick_reads_back(game: GameView)
    requires
        is_plain_game(game),
        names_fit(game),
        lacks_pick_word(game),
        is_away_pick(game),
    ensures
        ({
            let block = record_of(game).block;
            &&& pick_team_readable(block)
            &&& pick_team(block) == Some(trim(truncated(game.away.name, NAME_WIDTH as int)))
            &&& is_readable_bet(game) ==> pick_ml(block) == Some(game.away.moneyline)
        }),
{
    let none = Seq::<char>::empty();
    law_only_the_away_team_is_picked(game);
    assert(block_with(game, none) =~= record_of(game).block);
    law_pick_team_reads_back(game, none);
    if is_readable_bet(game) {
        lemma_moneyline_of_block(game, none);
    }
}

/// A pick is settled by its own team and moneyline: it is won where the winner is the away team,
/// with the profit of its moneyline, and lost otherwise.
pub proof fn law_pick_is_settled_by_its_bet(game: GameView, winner: Seq<char>)
    requires
        is_plain_game(game),
        names_fit(game),
        lacks_pick_word(game),
        is_away_pick(game),
        is_readable_bet(game),
    ensures
        settled(record_of(game).block, winner) == if same_team(
            winner,
            trim(truncated(game.away.name, NAME_WIDTH as int)),
        ) {
            match win_fraction(game.away.moneyline) {
                Some(f) => Some((true, f)),
                None => Some((true, (0int, 1int))),
            }
        } else {
            Some((false, (0int, 1int)))
        },
{
    law_pick_reads_back(game);
}

/// The record of a game is kept under its address and its day and has two lines. Each shows, word
/// by word, the name of a team as far as it fits, its moneyline, its chance and its expected value,
/// the away team first.
pub proof fn law_record_shows_both_teams(game: GameView)
    requires
        is_plain_game(game),
        names_fit(game),
    ensures
        ({
            let r = record_of(game);
            let ls = lines(r.block);
            &&& r.url == game.game_url
            &&& r.day == day_key(game.time)
            &&& ls == seq![away_row(game), home_row(game)]
            &&& words(ls[0]) == words(truncated(game.away.name, 26)) + words(game.away.moneyline)
                + seq![percent_text(game.away_predictor)] + words(
                away_ev_text(ev_of(game.away_predictor)),
            )
            &&& words(ls[1]) == words(truncated(game.home.name, 26)) + words(game.home.moneyline)
                + seq![percent_text(game.home_predictor)] + seq![
                home_ev_text(ev_of(game.home_predictor)),
            ]
        }),
{
    lemma_rows(game);
    lemma_row_words(
        truncated(game.away.name, NAME_WIDTH as int),
        game.away.moneyline,
        percent_text(game.away_predictor),
        away_ev_text(ev_of(game.away_predictor)),
    );
    lemma_row_words(
        truncated(game.home.name, NAME_WIDTH as int),
        game.home.moneyline,
        percent_text(game.home_predictor),
        home_ev_text(ev_of(game.home_predictor)),
    );
    lemma_shown_words(game.away_predictor);
    lemma_shown_words(game.home_predictor);
    let away = words(truncated(game.away.name, 26)) + words(game.away.moneyline) + seq![
        percent_text(game.away_predictor),
    ] + words(away_ev_text(ev_of(game.away_predictor)));
    let home = words(truncated(game.home.name, 26)) + words(game.home.moneyline) + seq![
        percent_text(game.home_predictor),
    ] + seq![home_ev_text(ev_of(game.home_predictor))];
    assert(words(away_row(game)) =~= away);
    assert(words(home_row(game)) =~= home);
}

/// A chance and an expected value without a mark are one word each.
proof fn lemma_shown_words(forecast: Option<ForecastView>)
    requires
        is_plain_forecast(forecast),
    ensures
        words(percent_text(forecast)) == seq![percent_text(forecast)],
        words(home_ev_text(ev_of(forecast))) == seq![home_ev_text(ev_of(forecast))],
{
    reveal_strlit("-");
    reveal_strlit("%");
    let percent = percent_text(forecast);
    let ev = home_ev_text(ev_of(forecast));
    if let Some(f) = forecast {
        lemma_amount(f.percent);
        assert forall|i: int| 0 <= i < percent.len() implies !is_space(#[trigger] percent[i]) by {
            if i < f.percent.len() {
                assert(!is_space(f.percent[i]));
            }
        }
        if let Some(e) = f.ev {
            lemma_amount(e.text);
        }
    }
    lemma_one_word(percent);
    lemma_one_word(ev);
}

/// A pick of a game is won where the winner's name and the picked name, cut to the width of a row,
/// agree as far as the shorter of them goes, and lost where some character tells them apart. Won at
/// a positive moneyline it gains that; at a negative one, the gain times the number is 10000.
pub proof fn law_pick_is_won_by_its_team(game: GameView, winner: Seq<char>)
    requires
        is_plain_game(game),
        names_fit(game),
        lacks_pick_word(game),
        is_away_pick(game),
        is_readable_bet(game),
    ensures
        ({
            let team = trim(truncated(game.away.name, 26));
            settled(record_of(game).block, winner) matches Some((won, (p, q))) && {
                &&& won <==> forall|i: int|
                    0 <= i < winner.len() && i < team.len() ==> #[trigger] winner[i] == team[i]
                &&& q > 0
                &&& !won ==> p == 0
                &&& won ==> match read_i32(trim(game.away.moneyline)) {
                    Some(n) => {
                        &&& n > 0 ==> p == n * q
                        &&& n < 0 ==> p * (-n) == 100 * 100 * q
                        &&& n == 0 ==> p == 0
                    },
                    None => p == 0,
                }
            }
        }),
{
    law_pick_reads_back(game);
    law_bet_goes_by_the_whole_names(
        record_of(game).block,
        winner,
        trim(truncated(game.away.name, 26)),
        game.away.moneyline,
    );
}

} // verus!
