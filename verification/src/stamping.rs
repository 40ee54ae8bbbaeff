//! Stamping the result of a bet on the lines of its record.

use vstd::prelude::*;

use crate::grouping::{in_file_order, law_grouping_keeps_records};
use crate::ledger::{is_day_line, is_url_line, loaded};
use crate::model::GameView;
use crate::picking::{
    is_amount, is_amount_char, is_away_pick, is_plain_game, is_readable_bet, lacks_pick_word,
    law_game_records_are_storable, law_only_the_away_team_is_picked, law_pick_reads_back,
    lemma_amount, lemma_read_row, lemma_rows,
};
use crate::picks_file::{is_added, new_records, picks_file, stamped_record, stamped_records};
use crate::records::{
    away_row, count_picks, home_row, names_fit, pick_line, pick_ml, pick_team, pick_team_readable,
    record_of, RecordView,
};
use crate::results::{
    result_tag, settled, stamped, stamped_line, stamped_lines, tag_start, untagged, BetResultView,
};
use crate::reruns::{law_only_new_games_are_added, law_second_run_adds_nothing};
use crate::round_trip::{
    is_block, is_record_line, is_saveable, is_storable, law_file_reads_back,
    law_rewriting_keeps_the_file, lemma_trimmed_lines, lemma_trimmed_pick, trimmed_record,
};
use crate::text::{
    contains, is_space, join, lemma_find_from, lemma_find_is, lines, occurs_at, split_on, strip_cr,
    trim_end,
};
use crate::text_facts::{
    lemma_joined_lines, lemma_last_of_lines, lemma_lines_hold_no_feed, lemma_not_blank,
    lemma_split_joined, lemma_trim_end, no_cr_end,
};

verus! {

/// Before its result, and the blank that follows, a line still holds the word PICK where it is a
/// pick, and neither of the words that results start with.
pub open spec fn is_stampable(line: Seq<char>) -> bool {
    contains(line, "PICK"@) ==> {
        &&& contains(untagged(line), "PICK"@)
        &&& !contains(untagged(line) + " "@, " WON "@)
        &&& !contains(untagged(line) + " "@, " LOST "@)
    }
}

pub(crate) proof fn lemma_untagged(line: Seq<char>)
    ensures
        untagged(line).len() <= line.len(),
        untagged(line) == line.take(untagged(line).len() as int),
        trim_end(untagged(line)) == untagged(line),
{
    lemma_find_from(line, " WON "@, 0);
    lemma_find_from(line, " LOST "@, 0);
    let part = match tag_start(line) {
        Some(p) => line.take(p),
        None => line,
    };
    lemma_trim_end(part);
    let b = trim_end(part);
    assert(b =~= line.take(b.len() as int));
    if b.len() > 0 {
        lemma_not_blank(b);
    }
}

/// No occurrence of a word in blanks starts inside `base` where a blank and a text follow it, but
/// for those in `base` and the blank.
proof fn lemma_none_before(base: Seq<char>, rest: Seq<char>, word: Seq<char>, j: int)
    requires
        word.len() >= 2,
        !word.subrange(1, word.len() - 1).contains(' '),
        !contains(base + " "@, word),
        0 <= j < base.len(),
    ensures
        !occurs_at(base + " "@ + rest, j, word),
{
    reveal_strlit(" ");
    let l = base + " "@ + rest;
    let n = base.len() as int;
    let m = word.len() as int;
    if occurs_at(l, j, word) {
        if j + m <= n + 1 {
            assert((base + " "@).subrange(j, j + m) =~= l.subrange(j, j + m));
            assert(occurs_at(base + " "@, j, word));
        } else {
            assert(l.subrange(j, j + m)[n - j] == l[n]);
            assert(word[n - j] == ' ');
            assert(word.subrange(1, m - 1)[n - j - 1] == ' ');
        }
    }
}

/// The result that was stamped on a line is found again.
proof fn lemma_tag_found(base: Seq<char>, won: bool, amount: Seq<char>)
    requires
        !contains(base + " "@, " WON "@),
        !won ==> !contains(base + " "@, " LOST "@),
    ensures
        tag_start(base + " "@ + result_tag(won, amount)) == Some(base.len() as int),
{
    reveal_strlit(" ");
    reveal_strlit(" WON ");
    reveal_strlit(" LOST ");
    reveal_strlit("WON +$");
    reveal_strlit("LOST -$100.00");
    let tag = result_tag(won, amount);
    let l = base + " "@ + tag;
    let n = base.len() as int;
    let won_word = " WON "@;
    let lost_word = " LOST "@;
    assert(!won_word.subrange(1, 4).contains(' '));
    assert(!lost_word.subrange(1, 5).contains(' '));
    assert forall|j: int| 0 <= j < n implies !occurs_at(l, j, won_word) by {
        lemma_none_before(base, tag, won_word, j);
    }
    if won {
        assert(l.subrange(n, n + 5) =~= won_word);
        lemma_find_is(l, won_word, 0, n);
    } else {
        assert forall|j: int| 0 <= j implies !occurs_at(l, j, won_word) by {
            if j >= n && occurs_at(l, j, won_word) {
                assert(l.subrange(j, j + 5)[0] == l[j]);
                assert(l.subrange(j, j + 5)[1] == l[j + 1]);
                assert(l[j] == ' ' && l[j + 1] == 'W');
                if j > n {
                    assert(tag[j - n - 1] == ' ');
                }
                assert(tag[j - n] == 'W');
            }
        }
        lemma_find_from(l, won_word, 0);
        assert forall|j: int| 0 <= j < n implies !occurs_at(l, j, lost_word) by {
            lemma_none_before(base, tag, lost_word, j);
        }
        assert(l.subrange(n, n + 6) =~= lost_word);
        lemma_find_is(l, lost_word, 0, n);
    }
}

/// A line that is stamped keeps what stands before its result.
pub(crate) proof fn lemma_stamped_line(line: Seq<char>, won: bool, amount: Seq<char>)
    requires
        contains(line, "PICK"@),
        contains(untagged(line), "PICK"@),
        !contains(untagged(line) + " "@, " WON "@),
        !won ==> !contains(untagged(line) + " "@, " LOST "@),
    ensures
        contains(stamped_line(line, result_tag(won, amount)), "PICK"@),
        untagged(stamped_line(line, result_tag(won, amount))) == untagged(line),
{
    let base = untagged(line);
    let l = stamped_line(line, result_tag(won, amount));
    lemma_untagged(line);
    lemma_tag_found(base, won, amount);
    assert(l.take(base.len() as int) =~= base);
    let i = choose|i: int| occurs_at(base, i, "PICK"@);
    assert(l.subrange(i, i + "PICK"@.len()) =~= base.subrange(i, i + "PICK"@.len()));
    assert(occurs_at(l, i, "PICK"@));
}

/// Stamping a line again replaces the result that stands there. A line is left out where what
/// stands before its result could be taken for a result itself.
pub proof fn law_restamping_replaces(
    line: Seq<char>,
    won: bool,
    amount: Seq<char>,
    tag: Seq<char>,
)
    requires
        contains(line, "PICK"@) ==> contains(untagged(line), "PICK"@) && !contains(
            untagged(line) + " "@,
            " WON "@,
        ) && (!won ==> !contains(untagged(line) + " "@, " LOST "@)),
    ensures
        stamped_line(stamped_line(line, result_tag(won, amount)), tag) == stamped_line(line, tag),
{
    if contains(line, "PICK"@) {
        lemma_stamped_line(line, won, amount);
    }
}

/// A text that can be stamped: it is one line, and what it ends in ends neither a heading nor an
/// address.
pub open spec fn is_tag(tag: Seq<char>) -> bool {
    &&& tag.len() > 0
    &&& !tag.contains('\n')
    &&& !is_space(tag.last())
    &&& tag.last() != '='
    &&& tag.last() != ']'
}

pub(crate) proof fn lemma_result_tag(won: bool, amount: Seq<char>)
    requires
        won ==> is_amount(amount),
    ensures
        is_tag(result_tag(won, amount)),
{
    reveal_strlit("WON +$");
    reveal_strlit("LOST -$100.00");
    let tag = result_tag(won, amount);
    if won {
        lemma_amount(amount);
        assert(is_amount_char(amount[amount.len() - 1]));
        assert forall|i: int| 0 <= i < tag.len() implies tag[i] != '\n' by {
            if i >= 6 {
                assert(is_amount_char(amount[i - 6]));
            }
        }
    }
}

/// The lines of a block end in no carriage return.
proof fn lemma_block_lines(block: Seq<char>)
    requires
        is_block(block),
    ensures
        lines(block).len() > 0,
        forall|i: int|
            0 <= i < lines(block).len() ==> !(#[trigger] lines(block)[i]).contains('\n')
                && no_cr_end(lines(block)[i]),
{
    let ls = lines(block);
    lemma_last_of_lines(block);
    assert forall|i: int| 0 <= i < ls.len() implies !(#[trigger] ls[i]).contains('\n') by {
        lemma_lines_hold_no_feed(block, i);
    }
    lemma_split_joined(ls);
    let p = split_on(block, '\n');
    assert(p == ls);
    assert forall|i: int| 0 <= i < ls.len() implies !(#[trigger] ls[i]).contains('\n')
        && no_cr_end(ls[i]) by {
        if i < ls.len() - 1 {
            assert(p.drop_last().map_values(|l: Seq<char>| strip_cr(l))[i] == strip_cr(p[i]));
            assert(ls[i] == strip_cr(ls[i]));
        }
    }
}

/// A stamped line is one line that reads back as the line of a record.
proof fn lemma_stamped_is_line(line: Seq<char>, tag: Seq<char>)
    requires
        is_tag(tag),
        !line.contains('\n'),
        no_cr_end(line),
        is_record_line(line),
    ensures
        ({
            let l = stamped_line(line, tag);
            &&& !l.contains('\n')
            &&& no_cr_end(l)
            &&& is_record_line(l)
            &&& l.len() > 0
            &&& l == line || !is_space(l.last())
        }),
{
    let l = stamped_line(line, tag);
    reveal_strlit(" ");
    reveal_strlit(" ===");
    if contains(line, "PICK"@) {
        let base = untagged(line);
        lemma_untagged(line);
        assert(l.last() == tag.last());
        assert forall|i: int| 0 <= i < l.len() implies l[i] != '\n' by {
            if i < base.len() {
                assert(line[i] != '\n');
            } else if i > base.len() {
                assert(tag[i - base.len() - 1] != '\n');
            }
        }
        lemma_not_blank(l);
        if is_day_line(l) {
            assert(l.subrange(l.len() - 4, l.len() as int)[3] == l[l.len() - 1]);
        }
        if is_url_line(l) {
            assert(l.subrange(l.len() - 1, l.len() as int)[0] == l[l.len() - 1]);
        }
    } else if line.len() == 0 {
        assert(crate::text::trim_start(line) == line);
    }
}

/// The lines of a stamped block are its lines stamped, and it can be kept in the picks file as
/// before.
pub(crate) proof fn lemma_stamped_block(block: Seq<char>, tag: Seq<char>)
    requires
        is_block(block),
        is_tag(tag),
    ensures
        lines(stamped(block, tag)) == stamped_lines(lines(block), tag),
        is_block(stamped(block, tag)),
{
    let ls = lines(block);
    let now = stamped_lines(ls, tag);
    lemma_block_lines(block);
    lemma_last_of_lines(block);
    assert forall|i: int| 0 <= i < now.len() implies !(#[trigger] now[i]).contains('\n')
        && no_cr_end(now[i]) && is_record_line(now[i]) && now[i].len() > 0 by {
        assert(is_record_line(ls[i]));
        lemma_stamped_is_line(ls[i], tag);
    }
    assert(is_record_line(ls[ls.len() - 1]));
    lemma_stamped_is_line(ls.last(), tag);
    assert(now[now.len() - 1].len() > 0);
    lemma_joined_lines(now);
    let text = stamped(block, tag);
    lemma_joined_end(now);
}

/// Joined lines end as the last of them does.
proof fn lemma_joined_end(ls: Seq<Seq<char>>)
    requires
        ls.len() > 0,
        ls.last().len() > 0,
    ensures
        join(ls, "\n"@).len() > 0,
        join(ls, "\n"@).last() == ls.last().last(),
{
}

proof fn lemma_same_picks(ls: Seq<Seq<char>>, now: Seq<Seq<char>>)
    requires
        ls.len() == now.len(),
        forall|i: int|
            0 <= i < ls.len() ==> contains(#[trigger] ls[i], "PICK"@) == contains(now[i], "PICK"@),
    ensures
        count_picks(ls) == count_picks(now),
    decreases ls.len(),
{
    if ls.len() > 0 {
        let a = ls.drop_last();
        let b = now.drop_last();
        assert forall|i: int| 0 <= i < a.len() implies contains(#[trigger] a[i], "PICK"@)
            == contains(b[i], "PICK"@) by {
            assert(a[i] == ls[i]);
        }
        lemma_same_picks(a, b);
        assert(contains(ls[ls.len() - 1], "PICK"@) == contains(now[now.len() - 1], "PICK"@));
    }
}

/// Every line of a block can be stamped and stamped again.
pub open spec fn is_stampable_block(block: Seq<char>) -> bool {
    is_block(block) && forall|i: int|
        0 <= i < lines(block).len() ==> is_stampable(#[trigger] lines(block)[i])
}

/// A stamped record is kept and stamped as before: it can be kept in the picks file, its lines can
/// be stamped again, and its day, its address and the number of its picks are the same.
pub proof fn law_stamped_records_are_storable(
    r: RecordView,
    results: Map<Seq<char>, BetResultView>,
)
    requires
        is_storable(r),
        is_stampable_block(r.block),
        results.dom().contains(r.url) && results[r.url].won ==> is_amount(results[r.url].amount),
    ensures
        is_storable(stamped_record(r, results)),
        is_stampable_block(stamped_record(r, results).block),
        stamped_record(r, results).day == r.day,
        stamped_record(r, results).url == r.url,
        stamped_record(r, results).picks == r.picks,
{
    if results.dom().contains(r.url) {
        let won = results[r.url].won;
        let amount = results[r.url].amount;
        let tag = result_tag(won, amount);
        lemma_result_tag(won, amount);
        lemma_stamped_block(r.block, tag);
        let ls = lines(r.block);
        let now = stamped_lines(ls, tag);
        assert forall|i: int| 0 <= i < ls.len() implies contains(#[trigger] ls[i], "PICK"@)
            == contains(now[i], "PICK"@) && is_stampable(now[i]) by {
            assert(is_stampable(ls[i]));
            if contains(ls[i], "PICK"@) {
                lemma_stamped_line(ls[i], won, amount);
            }
        }
        lemma_same_picks(ls, now);
    }
}

/// Stamping a block again replaces the results that stand there.
pub proof fn law_restamped_block(block: Seq<char>, won: bool, amount: Seq<char>, tag: Seq<char>)
    requires
        is_stampable_block(block),
        won ==> is_amount(amount),
    ensures
        stamped(stamped(block, result_tag(won, amount)), tag) == stamped(block, tag),
{
    let first = result_tag(won, amount);
    lemma_result_tag(won, amount);
    lemma_stamped_block(block, first);
    let ls = lines(block);
    assert forall|i: int| 0 <= i < ls.len() implies #[trigger] stamped_lines(
        stamped_lines(ls, first),
        tag,
    )[i] == stamped_lines(ls, tag)[i] by {
        assert(is_stampable(ls[i]));
        law_restamping_replaces(ls[i], won, amount, tag);
    }
    assert(stamped_lines(stamped_lines(ls, first), tag) =~= stamped_lines(ls, tag));
}

pub(crate) proof fn lemma_picked_row(game: GameView)
    requires
        is_plain_game(game),
        names_fit(game),
        tag_start(away_row(game)) is None,
    ensures
        untagged(away_row(game)) == away_row(game),
        is_away_pick(game) ==> !contains(away_row(game) + " "@, " WON "@) && !contains(
            away_row(game) + " "@,
            " LOST "@,
        ),
{
    lemma_rows(game);
    lemma_not_blank(away_row(game));
    if is_away_pick(game) {
        let l = away_row(game);
        reveal_strlit(" ");
        reveal_strlit(" WON ");
        reveal_strlit(" LOST ");
        reveal_strlit(" PICK");
        assert(l.last() == 'K') by {
            crate::picking::lemma_row_end(game);
        }
        lemma_find_from(l, " WON "@, 0);
        lemma_find_from(l, " LOST "@, 0);
        let s = l + " "@;
        let n = l.len() as int;
        if contains(s, " WON "@) {
            let i = choose|i: int| occurs_at(s, i, " WON "@);
            assert(s.subrange(i, i + 5)[3] == s[i + 3]);
            if i + 5 <= n {
                assert(l.subrange(i, i + 5) =~= s.subrange(i, i + 5));
                assert(occurs_at(l, i, " WON "@));
            } else {
                assert(s[n - 1] == 'K');
            }
        }
        if contains(s, " LOST "@) {
            let i = choose|i: int| occurs_at(s, i, " LOST "@);
            assert(s.subrange(i, i + 6)[4] == s[i + 4]);
            if i + 6 <= n {
                assert(l.subrange(i, i + 6) =~= s.subrange(i, i + 6));
                assert(occurs_at(l, i, " LOST "@));
            } else {
                assert(s[n - 1] == 'K');
            }
        }
    }
}

/// The lines of a game's record can be stamped, where its row does not look stamped already.
pub proof fn law_game_records_are_stampable(game: GameView)
    requires
        is_plain_game(game),
        names_fit(game),
        lacks_pick_word(game),
        tag_start(away_row(game)) is None,
    ensures
        is_stampable_block(record_of(game).block),
{
    lemma_rows(game);
    lemma_picked_row(game);
    law_only_the_away_team_is_picked(game);
    let ls = lines(record_of(game).block);
    assert(ls[0] == away_row(game) && ls[1] == home_row(game));
    assert forall|i: int| 0 <= i < ls.len() implies is_stampable(#[trigger] ls[i]) by {
        if i == 0 {
            assert(is_stampable(away_row(game)));
        } else {
            assert(is_stampable(home_row(game)));
        }
    }
}

/// A result on its line does not change what is read of a pick: the same team, the same moneyline,
/// and so the same settlement.
pub proof fn law_stamped_pick_reads_back(
    game: GameView,
    won: bool,
    amount: Seq<char>,
    winner: Seq<char>,
)
    requires
        is_plain_game(game),
        names_fit(game),
        lacks_pick_word(game),
        is_away_pick(game),
        is_readable_bet(game),
        tag_start(away_row(game)) is None,
        won ==> is_amount(amount),
    ensures
        ({
            let block = record_of(game).block;
            let marked = stamped(block, result_tag(won, amount));
            &&& pick_team_readable(marked)
            &&& pick_team(marked) == pick_team(block)
            &&& pick_ml(marked) == pick_ml(block)
            &&& settled(marked, winner) == settled(block, winner)
        }),
{
    let block = record_of(game).block;
    let tag = result_tag(won, amount);
    let marked = stamped(block, tag);
    lemma_rows(game);
    lemma_picked_row(game);
    law_only_the_away_team_is_picked(game);
    law_pick_reads_back(game);
    lemma_result_tag(won, amount);
    lemma_stamped_block(block, tag);
    let l = stamped_line(away_row(game), tag);
    assert(lines(block)[0] == away_row(game));
    assert(lines(marked)[0] == l);
    assert(contains(l, "PICK"@)) by {
        lemma_stamped_line(away_row(game), won, amount);
    }
    assert(pick_line(marked) == Some(l));
    reveal_strlit(" ");
    lemma_read_row(game, " "@ + tag);
    assert(l =~= away_row(game) + (" "@ + tag));
}

/// A game whose record can be kept and stamped.
pub open spec fn is_recordable(game: GameView) -> bool {
    &&& is_plain_game(game)
    &&& names_fit(game)
    &&& lacks_pick_word(game)
    &&& tag_start(away_row(game)) is None
    &&& !game.game_url.contains('\n')
    &&& !game.time.contains('\n')
}

/// Every record can be kept in the picks file and stamped again.
pub open spec fn all_kept(records: Seq<RecordView>) -> bool {
    forall|i: int|
        0 <= i < records.len() ==> is_storable(#[trigger] records[i]) && is_stampable_block(
            records[i].block,
        )
}

/// The games that are added can be recorded.
pub open spec fn new_games_recordable(existing: Seq<RecordView>, games: Seq<GameView>) -> bool {
    forall|i: int|
        0 <= i < games.len() && is_added(existing, games, i) ==> is_recordable(#[trigger] games[i])
}

/// The profits of the bets that were won are written as numbers.
pub open spec fn amounts_written(results: Map<Seq<char>, BetResultView>) -> bool {
    forall|url: Seq<char>| #[trigger]
        results.dom().contains(url) && results[url].won ==> is_amount(results[url].amount)
}

pub(crate) proof fn lemma_kept_with_games(existing: Seq<RecordView>, games: Seq<GameView>)
    requires
        all_kept(existing),
        new_games_recordable(existing, games),
    ensures
        all_kept(existing + new_records(existing, games)),
{
    let added = new_records(existing, games);
    let all = existing + added;
    assert forall|i: int| 0 <= i < all.len() implies is_storable(#[trigger] all[i])
        && is_stampable_block(all[i].block) by {
        if i < existing.len() {
            assert(all[i] == existing[i]);
        } else {
            let j = i - existing.len();
            law_only_new_games_are_added(existing, games, j);
            let k = choose|k: int|
                0 <= k < games.len() && is_added(existing, games, k) && added[j] == record_of(
                    #[trigger] games[k],
                );
            assert(is_recordable(games[k]));
            law_game_records_are_storable(games[k]);
            law_game_records_are_stampable(games[k]);
            assert(all[i] == added[j]);
        }
    }
}

/// A run keeps what the picks file rests on: where the records so far can be kept and stamped
/// again, so can those with the new games added and the results stamped.
pub proof fn law_a_run_keeps_the_records(
    existing: Seq<RecordView>,
    games: Seq<GameView>,
    results: Map<Seq<char>, BetResultView>,
)
    requires
        all_kept(existing),
        new_games_recordable(existing, games),
        amounts_written(results),
    ensures
        all_kept(stamped_records(existing + new_records(existing, games), results)),
{
    lemma_kept_with_games(existing, games);
    let all = existing + new_records(existing, games);
    let saved = stamped_records(all, results);
    assert forall|i: int| 0 <= i < saved.len() implies is_storable(#[trigger] saved[i])
        && is_stampable_block(saved[i].block) by {
        assert(is_storable(all[i]));
        law_stamped_records_are_storable(all[i], results);
        assert(saved[i] == stamped_record(all[i], results));
    }
}

/// Stamping the same results again changes nothing of a record.
proof fn lemma_stamped_twice(r: RecordView, results: Map<Seq<char>, BetResultView>)
    requires
        is_stampable_block(r.block),
        amounts_written(results),
    ensures
        stamped_record(stamped_record(r, results), results) == stamped_record(r, results),
{
    if results.dom().contains(r.url) {
        let result = results[r.url];
        let tag = result_tag(result.won, result.amount);
        law_restamped_block(r.block, result.won, result.amount, tag);
    }
}

/// A line that a result is stamped on already stays as it is without the white space at its end.
proof fn lemma_trimmed_stamp(line: Seq<char>, tag: Seq<char>)
    requires
        is_tag(tag),
        stamped_line(line, tag) == line,
    ensures
        stamped_line(trim_end(line), tag) == trim_end(line),
{
    lemma_trimmed_pick(line);
    if contains(line, "PICK"@) {
        assert(line.last() == tag.last());
        lemma_not_blank(line);
    }
}

/// Stamping the same results again changes nothing of a record that lost the white space at its
/// end.
proof fn lemma_trimmed_twice(r: RecordView, results: Map<Seq<char>, BetResultView>)
    requires
        is_storable(r),
        is_stampable_block(r.block),
        amounts_written(results),
        is_block(trim_end(stamped_record(r, results).block)),
    ensures
        ({
            let s = trimmed_record(stamped_record(r, results));
            stamped_record(s, results) == s
        }),
{
    if results.dom().contains(r.url) {
        let result = results[r.url];
        let tag = result_tag(result.won, result.amount);
        lemma_result_tag(result.won, result.amount);
        lemma_stamped_block(r.block, tag);
        let marked = stamped(r.block, tag);
        let ls = lines(r.block);
        let now = lines(marked);
        assert forall|i: int| 0 <= i < now.len() implies stamped_line(#[trigger] now[i], tag)
            == now[i] by {
            assert(is_stampable(ls[i]));
            law_restamping_replaces(ls[i], result.won, result.amount, tag);
        }
        lemma_trimmed_lines(marked);
        let kept = lines(trim_end(marked));
        assert(stamped_line(now[now.len() - 1], tag) == now[now.len() - 1]);
        lemma_trimmed_stamp(now.last(), tag);
        assert(stamped_lines(kept, tag) =~= kept) by {
            assert forall|i: int| 0 <= i < kept.len() implies stamped_line(kept[i], tag)
                == kept[i] by {
                if i < kept.len() - 1 {
                    assert(kept[i] == now[i]);
                }
            }
        }
    }
}

/// A second run with the same results writes the same file, whether it is given the same games or
/// none: no game is added, no result is stamped twice, and the order and the totals are the same.
pub proof fn law_second_run_keeps_the_file(
    existing: Seq<RecordView>,
    games: Seq<GameView>,
    results: Map<Seq<char>, BetResultView>,
    won: int,
    lost: int,
    profit: Seq<char>,
)
    requires
        all_kept(existing),
        new_games_recordable(existing, games),
        amounts_written(results),
        is_saveable(stamped_records(existing + new_records(existing, games), results)),
        won >= 0,
        lost >= 0,
        !profit.contains('\n'),
    ensures
        ({
            let saved = stamped_records(existing + new_records(existing, games), results);
            let file = picks_file(saved, won, lost, profit);
            let again = loaded(file);
            &&& picks_file(
                stamped_records(again + new_records(again, games), results),
                won,
                lost,
                profit,
            ) == file
            &&& picks_file(
                stamped_records(again + new_records(again, Seq::empty()), results),
                won,
                lost,
                profit,
            ) == file
        }),
{
    broadcast use vstd::seq_lib::group_to_multiset_ensures;

    let all = existing + new_records(existing, games);
    let saved = stamped_records(all, results);
    let file = picks_file(saved, won, lost, profit);
    let again = loaded(file);
    lemma_kept_with_games(existing, games);
    law_second_run_adds_nothing(existing, games, results, won, lost, profit);
    assert(again + new_records(again, games) =~= again);
    assert(again + new_records(again, Seq::empty()) =~= again);
    law_file_reads_back(saved, won, lost, profit);
    law_grouping_keeps_records(saved);
    let ordered = in_file_order(saved);
    assert(ordered.to_multiset().len() == saved.to_multiset().len());
    assert forall|k: int| 0 <= k < again.len() implies #[trigger] stamped_records(
        again,
        results,
    )[k] == again[k] by {
        assert(ordered.contains(ordered[k]));
        assert(saved.to_multiset().count(ordered[k]) > 0);
        let j = saved.index_of(ordered[k]);
        assert(saved[j] == stamped_record(all[j], results));
        assert(is_storable(all[j]));
        if k < again.len() - 1 {
            assert(again[k] == ordered[k]);
            lemma_stamped_twice(all[j], results);
        } else {
            assert(again[k] == trimmed_record(ordered[k]));
            lemma_trimmed_twice(all[j], results);
        }
    }
    assert(stamped_records(again, results) =~= again);
    law_rewriting_keeps_the_file(saved, won, lost, profit);
}

} // verus!
