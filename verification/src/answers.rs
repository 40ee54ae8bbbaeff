//! The same answers give the same results: what a run on the records that were read back decides,
//! and the file that it writes.

use vstd::prelude::*;

use crate::bytes::{byte_len, can_truncate, cut_at, lemma_cut_from, truncated};
use crate::grouping::{in_file_order, law_grouping_keeps_records};
use crate::ledger::loaded;
use crate::model::GameView;
use crate::picking::{
    is_amount, is_away_pick, is_readable_bet, law_only_the_away_team_is_picked,
    lemma_byte_len_concat, lemma_byte_len_not_short, lemma_cut_found, lemma_no_pick_line,
    lemma_pick_line_found, lemma_read_row, lemma_rows,
};
use crate::picks_file::{
    due_bets, is_added, is_recent, law_due_bets_are_recent_picks, new_records, picks_file,
    stamped_record, stamped_records,
};
use crate::records::{
    away_row, home_row, is_moneyline, moneyline_from, pick_line, pick_line_from, pick_ml, pick_team,
    pick_team_readable, record_of, RecordView, NAME_WIDTH,
};
use crate::reruns::{
    has_distinct_urls, law_only_new_games_are_added, law_second_run_adds_nothing,
    law_urls_stay_distinct, law_written_urls_are_distinct,
};
use crate::results::{
    can_settle, decided, decided_bets, law_decided_bets_are_due, result_tag, settled, settled_book,
    stamped, stamped_lines, tag_start, untagged, urls_with, BetResultView,
};
use crate::round_trip::{
    is_block, is_saveable, is_storable, law_file_reads_back, lemma_trimmed_lines,
    lemma_trimmed_pick, lemma_trimmed_picks, read_back, trimmed_record,
};
use crate::stamping::{
    all_kept, amounts_written, is_recordable, is_stampable, is_stampable_block,
    law_second_run_keeps_the_file, lemma_kept_with_games, lemma_picked_row, lemma_result_tag,
    lemma_stamped_block, lemma_stamped_line, lemma_untagged, new_games_recordable,
};
use crate::text::{
    contains, is_space, lemma_find_from, lines, occurs_at, trim_end, words,
};
use crate::text_facts::{lemma_trim_end, lemma_words_concat, lemma_words_space_after};

verus! {

/// What is read of the pick of a block stands before its result: 26 bytes for the team, and a
/// moneyline.
pub open spec fn is_lasting_bet(block: Seq<char>) -> bool {
    pick_line(block) matches Some(l) ==> cut_at(untagged(l), NAME_WIDTH as int) is Some
        && moneyline_from(words(untagged(l)), 0) is Some
}

/// The pick of either block is settled alike, whoever wins.
pub open spec fn settles_alike(block: Seq<char>, other: Seq<char>) -> bool {
    forall|winner: Seq<char>|
        #![trigger settled(block, winner)]
        #![trigger settled(other, winner)]
        settled(block, winner) == settled(other, winner) && can_settle(block, winner) == can_settle(
            other,
            winner,
        )
}

/// A line that is `base`, or goes on after it with white space.
spec fn goes_on_from(line: Seq<char>, base: Seq<char>) -> bool {
    &&& base.len() <= line.len()
    &&& line.take(base.len() as int) == base
    &&& base.len() < line.len() ==> is_space(line[base.len() as int])
}

proof fn lemma_moneyline_prefix(a: Seq<Seq<char>>, b: Seq<Seq<char>>, j: int)
    requires
        0 <= j,
        moneyline_from(a, j) is Some,
    ensures
        moneyline_from(a + b, j) == moneyline_from(a, j),
    decreases a.len() - j,
{
    assert(j < a.len());
    assert((a + b)[j] == a[j]);
    if !is_moneyline(a[j]) {
        lemma_moneyline_prefix(a, b, j + 1);
    }
}

/// What is read of a line is what is read of its start.
proof fn lemma_reads_start(line: Seq<char>, base: Seq<char>)
    requires
        goes_on_from(line, base),
        cut_at(base, NAME_WIDTH as int) is Some,
        moneyline_from(words(base), 0) is Some,
    ensures
        can_truncate(line, NAME_WIDTH as int),
        truncated(line, NAME_WIDTH as int) == base.take(cut_at(base, NAME_WIDTH as int)->0),
        moneyline_from(words(line), 0) == moneyline_from(words(base), 0),
{
    let w = NAME_WIDTH as int;
    let k = cut_at(base, w)->0;
    let n = base.len() as int;
    lemma_cut_from(base, w, 0);
    assert(line.take(k) =~= base.take(k)) by {
        assert(line.take(n).take(k) =~= line.take(k));
    }
    lemma_cut_found(line, k, 0);
    assert(line =~= line.take(k) + line.skip(k));
    lemma_byte_len_concat(line.take(k), line.skip(k));
    lemma_byte_len_not_short(line.skip(k));
    if byte_len(line) <= w {
        assert(line.take(k) =~= line);
    }
    let rest = line.skip(n);
    if rest.len() == 0 {
        assert(line =~= base);
    } else {
        let one = seq![rest[0]];
        assert(is_space(rest[0]));
        assert(line =~= (base + one) + rest.skip(1));
        lemma_words_concat(base + one, rest.skip(1));
        lemma_words_space_after(base, one);
        lemma_moneyline_prefix(words(base), words(rest.skip(1)), 0);
    }
}

/// Blocks whose pick lines go on from the same start settle alike.
proof fn lemma_settles_alike(block: Seq<char>, other: Seq<char>, base: Seq<char>)
    requires
        pick_line(block) is Some,
        pick_line(other) is Some,
        goes_on_from(pick_line(block)->0, base),
        goes_on_from(pick_line(other)->0, base),
        cut_at(base, NAME_WIDTH as int) is Some,
        moneyline_from(words(base), 0) is Some,
    ensures
        settles_alike(block, other),
{
    lemma_reads_start(pick_line(block)->0, base);
    lemma_reads_start(pick_line(other)->0, base);
    assert(pick_team(block) == pick_team(other));
    assert(pick_ml(block) == pick_ml(other));
    assert(pick_team_readable(block) && pick_team_readable(other));
}

/// A line goes on after what stands before its result with white space.
proof fn lemma_goes_on(line: Seq<char>)
    ensures
        goes_on_from(line, untagged(line)),
        untagged(line).len() > 0 ==> goes_on_from(trim_end(line), untagged(line)),
{
    lemma_untagged(line);
    let base = untagged(line);
    let n = base.len() as int;
    lemma_find_from(line, " WON "@, 0);
    lemma_find_from(line, " LOST "@, 0);
    reveal_strlit(" WON ");
    reveal_strlit(" LOST ");
    let part = match tag_start(line) {
        Some(p) => line.take(p),
        None => line,
    };
    lemma_trim_end(part);
    if n < part.len() {
        assert(is_space(part.skip(n)[0]));
        assert(part.skip(n)[0] == line[n]);
    } else if let Some(p) = tag_start(line) {
        assert(n == p);
        if occurs_at(line, p, " WON "@) {
            assert(line.subrange(p, p + 5)[0] == line[p]);
        } else {
            assert(line.subrange(p, p + 6)[0] == line[p]);
        }
    }
    if n > 0 {
        let kept = trim_end(line);
        let m = kept.len() as int;
        lemma_trim_end(line);
        lemma_trim_end(base);
        assert(!is_space(base.last()));
        assert(line[n - 1] == base.last());
        assert(m >= n) by {
            if m < n {
                assert(is_space(line.skip(m)[n - 1 - m]));
                assert(line.skip(m)[n - 1 - m] == line[n - 1]);
            }
        }
        assert(kept.take(n) =~= line.take(n));
    }
}

/// Where the first line with the word PICK stands.
proof fn lemma_pick_position(ls: Seq<Seq<char>>, j: int) -> (k: int)
    requires
        0 <= j,
        pick_line_from(ls, j) is Some,
    ensures
        j <= k < ls.len(),
        contains(ls[k], "PICK"@),
        pick_line_from(ls, j) == Some(ls[k]),
        forall|i: int| j <= i < k ==> !contains(#[trigger] ls[i], "PICK"@),
    decreases ls.len() - j,
{
    if contains(ls[j], "PICK"@) {
        j
    } else {
        lemma_pick_position(ls, j + 1)
    }
}

/// Lines that are picks where those of another list are: the first pick stands at the same place.
proof fn lemma_same_pick_position(ls: Seq<Seq<char>>, now: Seq<Seq<char>>) -> (k: int)
    requires
        ls.len() == now.len(),
        forall|i: int|
            0 <= i < ls.len() ==> contains(#[trigger] ls[i], "PICK"@) == contains(now[i], "PICK"@),
    ensures
        match pick_line_from(ls, 0) {
            Some(l) => 0 <= k < ls.len() && l == ls[k] && pick_line_from(now, 0) == Some(now[k])
                && contains(l, "PICK"@),
            None => pick_line_from(now, 0) is None,
        },
{
    if pick_line_from(ls, 0) is Some {
        let k = lemma_pick_position(ls, 0);
        assert(contains(ls[k], "PICK"@));
        assert forall|i: int| 0 <= i < k implies !contains(#[trigger] now[i], "PICK"@) by {
            assert(!contains(ls[i], "PICK"@));
        }
        lemma_pick_line_found(now, k, 0);
        k
    } else {
        assert forall|i: int| 0 <= i < now.len() implies !contains(#[trigger] now[i], "PICK"@) by {
            if contains(now[i], "PICK"@) {
                assert(contains(ls[i], "PICK"@));
                lemma_first_pick_exists(ls, i);
            }
        }
        lemma_no_pick_line(now, 0);
        0
    }
}

proof fn lemma_first_pick_exists(ls: Seq<Seq<char>>, i: int)
    requires
        0 <= i < ls.len(),
        contains(ls[i], "PICK"@),
    ensures
        pick_line_from(ls, 0) is Some,
{
    lemma_pick_from_exists(ls, 0, i);
}

proof fn lemma_pick_from_exists(ls: Seq<Seq<char>>, j: int, i: int)
    requires
        0 <= j <= i < ls.len(),
        contains(ls[i], "PICK"@),
    ensures
        pick_line_from(ls, j) is Some,
    decreases i - j,
{
    if !contains(ls[j], "PICK"@) {
        lemma_pick_from_exists(ls, j + 1, i);
    }
}

/// A result that is stamped on a bet does not change how it is settled, and what is read of it
/// still stands before the result.
pub proof fn law_stamped_bets_last(block: Seq<char>, won: bool, amount: Seq<char>)
    requires
        is_stampable_block(block),
        is_lasting_bet(block),
        won ==> is_amount(amount),
    ensures
        settles_alike(block, stamped(block, result_tag(won, amount))),
        is_lasting_bet(stamped(block, result_tag(won, amount))),
{
    let tag = result_tag(won, amount);
    let other = stamped(block, tag);
    lemma_result_tag(won, amount);
    lemma_stamped_block(block, tag);
    let ls = lines(block);
    let now = stamped_lines(ls, tag);
    assert forall|i: int| 0 <= i < ls.len() implies contains(#[trigger] ls[i], "PICK"@) == contains(
        now[i],
        "PICK"@,
    ) by {
        assert(is_stampable(ls[i]));
        if contains(ls[i], "PICK"@) {
            lemma_stamped_line(ls[i], won, amount);
        }
    }
    let k = lemma_same_pick_position(ls, now);
    if let Some(l) = pick_line(block) {
        assert(is_stampable(ls[k]));
        let m = now[k];
        lemma_stamped_line(l, won, amount);
        lemma_goes_on(l);
        lemma_goes_on(m);
        lemma_settles_alike(block, other, untagged(l));
    }
}

/// White space at the end of a block does not matter to how its pick is settled.
proof fn lemma_trimmed_bet(block: Seq<char>)
    requires
        is_block(block),
        is_lasting_bet(block),
    ensures
        settles_alike(block, trim_end(block)),
{
    let other = trim_end(block);
    lemma_trimmed_lines(block);
    let ls = lines(block);
    let now = lines(other);
    assert forall|i: int| 0 <= i < ls.len() implies contains(#[trigger] ls[i], "PICK"@) == contains(
        now[i],
        "PICK"@,
    ) by {
        if i == ls.len() - 1 {
            lemma_trimmed_pick(ls.last());
        }
    }
    let k = lemma_same_pick_position(ls, now);
    if let Some(l) = pick_line(block) {
        let base = untagged(l);
        lemma_goes_on(l);
        lemma_cut_from(base, NAME_WIDTH as int, 0);
        assert(base.len() > 0) by {
            if base.len() == 0 {
                assert(base.take(cut_at(base, NAME_WIDTH as int)->0) =~= base);
            }
        }
        lemma_settles_alike(block, other, base);
    }
}

/// The answer to the question who won a game, given as the summary of the game.
pub open spec fn answer(answers: Map<Seq<char>, Seq<char>>, url: Seq<char>) -> Option<Seq<char>> {
    if answers.dom().contains(url) {
        Some(answers[url])
    } else {
        None
    }
}

/// The answers for the bets that are due.
pub open spec fn answers_to(
    due: Seq<(Seq<char>, Seq<char>)>,
    answers: Map<Seq<char>, Seq<char>>,
) -> Seq<Option<Seq<char>>> {
    Seq::new(due.len(), |i: int| answer(answers, due[i].0))
}

/// The profits of the settled bets as they are shown.
pub open spec fn amounts_of(
    settled: Seq<(Seq<char>, (bool, (int, int)))>,
    shown: spec_fn((int, int)) -> Seq<char>,
) -> Seq<Seq<char>> {
    Seq::new(settled.len(), |i: int| shown(settled[i].1.1))
}

/// The results that a run has for the records: the bets that are due, settled by the answers, each
/// with its profit as it is shown.
pub open spec fn results_of(
    records: Seq<RecordView>,
    now_secs: int,
    answers: Map<Seq<char>, Seq<char>>,
    shown: spec_fn((int, int)) -> Seq<char>,
) -> Map<Seq<char>, BetResultView> {
    let due = due_bets(records, now_secs);
    let settled = decided_bets(due, answers_to(due, answers));
    settled_book(settled, amounts_of(settled, shown))
}

/// The file that a run writes for the records.
pub open spec fn run_file(
    records: Seq<RecordView>,
    now_secs: int,
    answers: Map<Seq<char>, Seq<char>>,
    shown: spec_fn((int, int)) -> Seq<char>,
    profit: Seq<char>,
) -> Seq<char> {
    let results = results_of(records, now_secs, answers, shown);
    picks_file(
        stamped_records(records, results),
        urls_with(results, true).len() as int,
        urls_with(results, false).len() as int,
        profit,
    )
}

/// The result for one record, where its bet is due and decided.
spec fn result_for(
    r: RecordView,
    now_secs: int,
    answers: Map<Seq<char>, Seq<char>>,
    shown: spec_fn((int, int)) -> Seq<char>,
) -> Option<BetResultView> {
    if r.picks > 0 && is_recent(r.day, now_secs) {
        match decided(r.block, answer(answers, r.url)) {
            Some((won, gain)) => Some(BetResultView { won, gain, amount: shown(gain) }),
            None => None,
        }
    } else {
        None
    }
}

proof fn lemma_decided_prefix(
    due: Seq<(Seq<char>, Seq<char>)>,
    a: Seq<Option<Seq<char>>>,
    b: Seq<Option<Seq<char>>>,
)
    requires
        forall|i: int| 0 <= i < due.len() ==> #[trigger] a[i] == b[i],
    ensures
        decided_bets(due, a) == decided_bets(due, b),
    decreases due.len(),
{
    if due.len() > 0 {
        lemma_decided_prefix(due.drop_last(), a, b);
        assert(a[due.len() - 1] == b[due.len() - 1]);
    }
}

proof fn lemma_book_prefix(
    settled: Seq<(Seq<char>, (bool, (int, int)))>,
    a: Seq<Seq<char>>,
    b: Seq<Seq<char>>,
)
    requires
        forall|i: int| 0 <= i < settled.len() ==> #[trigger] a[i] == b[i],
    ensures
        settled_book(settled, a) == settled_book(settled, b),
    decreases settled.len(),
{
    if settled.len() > 0 {
        lemma_book_prefix(settled.drop_last(), a, b);
        assert(a[settled.len() - 1] == b[settled.len() - 1]);
    }
}

/// The results of the records are those of the records before the last one, and its own.
proof fn lemma_results_step(
    records: Seq<RecordView>,
    now_secs: int,
    answers: Map<Seq<char>, Seq<char>>,
    shown: spec_fn((int, int)) -> Seq<char>,
)
    requires
        records.len() > 0,
    ensures
        ({
            let before = results_of(records.drop_last(), now_secs, answers, shown);
            results_of(records, now_secs, answers, shown) == match result_for(
                records.last(),
                now_secs,
                answers,
                shown,
            ) {
                Some(result) => before.insert(records.last().url, result),
                None => before,
            }
        }),
{
    let d = records.drop_last();
    let r = records.last();
    let due = due_bets(d, now_secs);
    let all = due_bets(records, now_secs);
    if r.picks > 0 && is_recent(r.day, now_secs) {
        let n = due.len() as int;
        assert(all.drop_last() =~= due);
        let sums = answers_to(all, answers);
        lemma_decided_prefix(due, sums, answers_to(due, answers));
        assert(sums[n] == answer(answers, r.url));
        let before = decided_bets(due, answers_to(due, answers));
        let now = decided_bets(all, sums);
        if let Some((won, gain)) = decided(r.block, answer(answers, r.url)) {
            assert(now.drop_last() =~= before);
            let amounts = amounts_of(now, shown);
            assert forall|i: int| 0 <= i < before.len() implies #[trigger] amounts[i]
                == amounts_of(before, shown)[i] by {
                assert(now[i] == before[i]);
            }
            lemma_book_prefix(before, amounts, amounts_of(before, shown));
            assert(amounts[before.len() as int] == shown(gain));
        }
    }
}

/// With distinct addresses, the results are those of the single records.
proof fn lemma_results_of(
    records: Seq<RecordView>,
    now_secs: int,
    answers: Map<Seq<char>, Seq<char>>,
    shown: spec_fn((int, int)) -> Seq<char>,
)
    requires
        has_distinct_urls(records),
    ensures
        ({
            let results = results_of(records, now_secs, answers, shown);
            &&& forall|i: int|
                0 <= i < records.len() ==> match result_for(
                    #[trigger] records[i],
                    now_secs,
                    answers,
                    shown,
                ) {
                    Some(v) => results.dom().contains(records[i].url) && results[records[i].url]
                        == v,
                    None => !results.dom().contains(records[i].url),
                }
            &&& forall|url: Seq<char>| #[trigger]
                results.dom().contains(url) ==> exists|i: int|
                    0 <= i < records.len() && (#[trigger] records[i]).url == url
        }),
    decreases records.len(),
{
    let results = results_of(records, now_secs, answers, shown);
    if records.len() == 0 {
        let none = Seq::<(Seq<char>, Seq<char>)>::empty();
        assert(decided_bets(none, answers_to(none, answers)).len() == 0);
        assert(results.dom() =~= Set::<Seq<char>>::empty());
    } else {
        let d = records.drop_last();
        let last = records.last();
        assert(has_distinct_urls(d));
        lemma_results_of(d, now_secs, answers, shown);
        lemma_results_step(records, now_secs, answers, shown);
        let before = results_of(d, now_secs, answers, shown);
        assert forall|i: int| 0 <= i < d.len() implies d[i].url != last.url by {
            assert(records[i].url != records[records.len() - 1].url);
        }
        assert(!before.dom().contains(last.url)) by {
            if before.dom().contains(last.url) {
                let i = choose|i: int| 0 <= i < d.len() && (#[trigger] d[i]).url == last.url;
                assert(d[i].url != last.url);
            }
        }
        assert forall|i: int| 0 <= i < records.len() implies match result_for(
            #[trigger] records[i],
            now_secs,
            answers,
            shown,
        ) {
            Some(v) => results.dom().contains(records[i].url) && results[records[i].url] == v,
            None => !results.dom().contains(records[i].url),
        } by {
            if i < d.len() {
                assert(d[i] == records[i]);
            }
        }
        assert forall|url: Seq<char>| #[trigger] results.dom().contains(url) implies exists|i: int|
            0 <= i < records.len() && (#[trigger] records[i]).url == url by {
            if before.dom().contains(url) {
                let i = choose|i: int| 0 <= i < d.len() && (#[trigger] d[i]).url == url;
                assert(records[i].url == url);
            } else {
                assert(records[records.len() - 1].url == url);
            }
        }
    }
}

/// The bets that a run decides for the records.
pub open spec fn bets_decided(
    records: Seq<RecordView>,
    now_secs: int,
    answers: Map<Seq<char>, Seq<char>>,
) -> Seq<(Seq<char>, (bool, (int, int)))> {
    let due = due_bets(records, now_secs);
    decided_bets(due, answers_to(due, answers))
}

/// With distinct addresses, the bets that are decided are those that have a result, and each ends
/// as its result says.
proof fn lemma_decided_are_results(
    records: Seq<RecordView>,
    now_secs: int,
    answers: Map<Seq<char>, Seq<char>>,
    shown: spec_fn((int, int)) -> Seq<char>,
    url: Seq<char>,
    end: (bool, (int, int)),
)
    requires
        has_distinct_urls(records),
    ensures
        ({
            let results = results_of(records, now_secs, answers, shown);
            bets_decided(records, now_secs, answers).contains((url, end))
                <==> results.dom().contains(url) && results[url].won == end.0 && results[url].gain
                == end.1
        }),
{
    let results = results_of(records, now_secs, answers, shown);
    let due = due_bets(records, now_secs);
    let sums = answers_to(due, answers);
    let found = bets_decided(records, now_secs, answers);
    lemma_results_of(records, now_secs, answers, shown);
    law_decided_bets_are_due(due, sums, url, end);
    if found.contains((url, end)) {
        let i = choose|i: int|
            0 <= i < due.len() && (#[trigger] due[i]).0 == url && decided(due[i].1, sums[i])
                == Some(end);
        assert(due.contains(due[i]));
        law_due_bets_are_recent_picks(records, now_secs, due[i]);
        let k = choose|k: int|
            0 <= k < records.len() && (#[trigger] records[k]).picks > 0 && is_recent(
                records[k].day,
                now_secs,
            ) && due[i] == (records[k].url, records[k].block);
        assert(sums[i] == answer(answers, url));
        assert(result_for(records[k], now_secs, answers, shown) is Some);
    }
    if results.dom().contains(url) && results[url].won == end.0 && results[url].gain == end.1 {
        let k = choose|k: int| 0 <= k < records.len() && (#[trigger] records[k]).url == url;
        let r = records[k];
        assert(result_for(r, now_secs, answers, shown) is Some);
        law_due_bets_are_recent_picks(records, now_secs, (r.url, r.block));
        let i = due.index_of((r.url, r.block));
        assert(due[i].0 == url);
        assert(sums[i] == answer(answers, url));
    }
}

/// Records with the same addresses and the same results for each have the same results.
proof fn lemma_same_results(
    a: Seq<RecordView>,
    b: Seq<RecordView>,
    now_secs: int,
    answers: Map<Seq<char>, Seq<char>>,
    shown: spec_fn((int, int)) -> Seq<char>,
)
    requires
        has_distinct_urls(a),
        has_distinct_urls(b),
        forall|i: int|
            0 <= i < a.len() ==> is_same_in(#[trigger] a[i], b, now_secs, answers, shown),
        forall|i: int|
            0 <= i < b.len() ==> is_same_in(#[trigger] b[i], a, now_secs, answers, shown),
    ensures
        results_of(a, now_secs, answers, shown) == results_of(b, now_secs, answers, shown),
{
    lemma_results_of(a, now_secs, answers, shown);
    lemma_results_of(b, now_secs, answers, shown);
    let ra = results_of(a, now_secs, answers, shown);
    let rb = results_of(b, now_secs, answers, shown);
    assert forall|url: Seq<char>|
        (#[trigger] ra.dom().contains(url) <==> rb.dom().contains(url)) && (ra.dom().contains(url)
            ==> ra[url] == rb[url]) by {
        if ra.dom().contains(url) {
            let i = choose|i: int| 0 <= i < a.len() && (#[trigger] a[i]).url == url;
            assert(is_same_in(a[i], b, now_secs, answers, shown));
            let k = choose|k: int|
                0 <= k < b.len() && (#[trigger] b[k]).url == a[i].url && result_for(
                    b[k],
                    now_secs,
                    answers,
                    shown,
                ) == result_for(a[i], now_secs, answers, shown);
            assert(b[k].url == url);
        }
        if rb.dom().contains(url) {
            let i = choose|i: int| 0 <= i < b.len() && (#[trigger] b[i]).url == url;
            assert(is_same_in(b[i], a, now_secs, answers, shown));
            let k = choose|k: int|
                0 <= k < a.len() && (#[trigger] a[k]).url == b[i].url && result_for(
                    a[k],
                    now_secs,
                    answers,
                    shown,
                ) == result_for(b[i], now_secs, answers, shown);
            assert(a[k].url == url);
        }
    }
    assert(ra.dom() =~= rb.dom());
    assert(ra =~= rb);
}

/// One of the records has the address and the result of `r`.
spec fn is_same_in(
    r: RecordView,
    records: Seq<RecordView>,
    now_secs: int,
    answers: Map<Seq<char>, Seq<char>>,
    shown: spec_fn((int, int)) -> Seq<char>,
) -> bool {
    exists|k: int|
        0 <= k < records.len() && (#[trigger] records[k]).url == r.url && result_for(
            records[k],
            now_secs,
            answers,
            shown,
        ) == result_for(r, now_secs, answers, shown)
}

/// Records that settle alike have the same result.
proof fn lemma_alike_result(
    r: RecordView,
    s: RecordView,
    now_secs: int,
    answers: Map<Seq<char>, Seq<char>>,
    shown: spec_fn((int, int)) -> Seq<char>,
)
    requires
        r.day == s.day,
        r.url == s.url,
        r.picks == s.picks,
        settles_alike(r.block, s.block),
    ensures
        result_for(r, now_secs, answers, shown) == result_for(s, now_secs, answers, shown),
{
    if let Some(text) = answer(answers, r.url) {
        if let Some(winner) = crate::summary::winner_in(text) {
            assert(settled(r.block, winner) == settled(s.block, winner));
        }
    }
}

/// The bet of every record can be read whatever result is stamped on it.
pub open spec fn all_lasting(records: Seq<RecordView>) -> bool {
    forall|i: int| 0 <= i < records.len() ==> is_lasting_bet((#[trigger] records[i]).block)
}

/// The bets of the games that are added can be read from their rows.
pub open spec fn new_bets_readable(existing: Seq<RecordView>, games: Seq<GameView>) -> bool {
    forall|i: int|
        0 <= i < games.len() && is_added(existing, games, i) && is_away_pick(games[i])
            ==> is_readable_bet(#[trigger] games[i])
}

/// The bet of a game's record can be read whatever result is stamped on it.
pub proof fn law_game_bets_last(game: GameView)
    requires
        is_recordable(game),
        is_away_pick(game) ==> is_readable_bet(game),
    ensures
        is_lasting_bet(record_of(game).block),
{
    let block = record_of(game).block;
    let away = away_row(game);
    lemma_rows(game);
    law_only_the_away_team_is_picked(game);
    lemma_picked_row(game);
    let ls = lines(block);
    assert(ls[0] == away && ls[1] == home_row(game));
    if is_away_pick(game) {
        assert(pick_line(block) == Some(away));
        lemma_read_row(game, Seq::empty());
        assert(away + Seq::<char>::empty() =~= away);
    } else {
        assert forall|i: int| 0 <= i < ls.len() implies !contains(#[trigger] ls[i], "PICK"@) by {}
        lemma_no_pick_line(ls, 0);
    }
}

proof fn lemma_lasting_with_games(existing: Seq<RecordView>, games: Seq<GameView>)
    requires
        all_lasting(existing),
        new_games_recordable(existing, games),
        new_bets_readable(existing, games),
    ensures
        all_lasting(existing + new_records(existing, games)),
{
    let added = new_records(existing, games);
    let all = existing + added;
    assert forall|i: int| 0 <= i < all.len() implies is_lasting_bet((#[trigger] all[i]).block) by {
        if i < existing.len() {
            assert(all[i] == existing[i]);
        } else {
            let j = i - existing.len();
            law_only_new_games_are_added(existing, games, j);
            let k = choose|k: int|
                0 <= k < games.len() && is_added(existing, games, k) && added[j] == record_of(
                    #[trigger] games[k],
                );
            assert(is_recordable(games[k]));
            law_game_bets_last(games[k]);
            assert(all[i] == added[j]);
        }
    }
}

/// A record that was stamped, and may have lost the white space at its end, has the same result as
/// before.
proof fn lemma_result_kept(
    r: RecordView,
    results: Map<Seq<char>, BetResultView>,
    now_secs: int,
    answers: Map<Seq<char>, Seq<char>>,
    shown: spec_fn((int, int)) -> Seq<char>,
)
    requires
        is_storable(r),
        is_stampable_block(r.block),
        is_lasting_bet(r.block),
        amounts_written(results),
    ensures
        ({
            let s = stamped_record(r, results);
            &&& result_for(s, now_secs, answers, shown) == result_for(r, now_secs, answers, shown)
            &&& is_block(trim_end(s.block)) ==> result_for(
                trimmed_record(s),
                now_secs,
                answers,
                shown,
            ) == result_for(r, now_secs, answers, shown)
        }),
{
    let s = stamped_record(r, results);
    crate::stamping::law_stamped_records_are_storable(r, results);
    if results.dom().contains(r.url) {
        law_stamped_bets_last(r.block, results[r.url].won, results[r.url].amount);
    }
    assert(settles_alike(r.block, s.block));
    assert(is_lasting_bet(s.block));
    lemma_alike_result(r, s, now_secs, answers, shown);
    if is_block(trim_end(s.block)) {
        lemma_trimmed_bet(s.block);
        lemma_trimmed_picks(s.block);
        lemma_alike_result(s, trimmed_record(s), now_secs, answers, shown);
    }
}

/// The same answers give the same results on the records that are read back from what a run wrote:
/// the same bets are decided, and each ends alike.
pub proof fn law_same_answers_same_results(
    records: Seq<RecordView>,
    now_secs: int,
    answers: Map<Seq<char>, Seq<char>>,
    shown: spec_fn((int, int)) -> Seq<char>,
    profit: Seq<char>,
)
    requires
        has_distinct_urls(records),
        all_kept(records),
        all_lasting(records),
        amounts_written(results_of(records, now_secs, answers, shown)),
        is_saveable(
            stamped_records(records, results_of(records, now_secs, answers, shown)),
        ),
        !profit.contains('\n'),
    ensures
        results_of(
            loaded(run_file(records, now_secs, answers, shown, profit)),
            now_secs,
            answers,
            shown,
        ) == results_of(records, now_secs, answers, shown),
        ({
            let again = loaded(run_file(records, now_secs, answers, shown, profit));
            forall|url: Seq<char>, end: (bool, (int, int))|
                #![trigger bets_decided(again, now_secs, answers).contains((url, end))]
                bets_decided(again, now_secs, answers).contains((url, end)) <==> bets_decided(
                    records,
                    now_secs,
                    answers,
                ).contains((url, end))
        }),
{
    broadcast use vstd::seq_lib::group_to_multiset_ensures;

    let results = results_of(records, now_secs, answers, shown);
    let saved = stamped_records(records, results);
    let won = urls_with(results, true).len() as int;
    let lost = urls_with(results, false).len() as int;
    let again = loaded(picks_file(saved, won, lost, profit));
    let none = Seq::<GameView>::empty();
    assert(records + new_records(records, none) =~= records);
    law_written_urls_are_distinct(records, none, results, won, lost, profit);
    law_file_reads_back(saved, won, lost, profit);
    law_grouping_keeps_records(saved);
    let ordered = in_file_order(saved);
    assert(ordered.to_multiset().len() == saved.to_multiset().len());
    assert(again == read_back(saved));
    assert forall|k: int| 0 <= k < again.len() implies is_same_in(
        #[trigger] again[k],
        records,
        now_secs,
        answers,
        shown,
    ) by {
        assert(ordered.contains(ordered[k]));
        assert(saved.to_multiset().count(ordered[k]) > 0);
        let j = saved.index_of(ordered[k]);
        lemma_saved_same(records, results, saved, again, k, j, now_secs, answers, shown);
        assert(records[j].url == again[k].url);
    }
    assert forall|j: int| 0 <= j < records.len() implies is_same_in(
        #[trigger] records[j],
        again,
        now_secs,
        answers,
        shown,
    ) by {
        assert(saved.contains(saved[j]));
        assert(ordered.to_multiset().count(saved[j]) > 0);
        let k = ordered.index_of(saved[j]);
        lemma_saved_same(records, results, saved, again, k, j, now_secs, answers, shown);
        assert(again[k].url == records[j].url);
    }
    lemma_same_results(again, records, now_secs, answers, shown);
    assert forall|url: Seq<char>, end: (bool, (int, int))|
        #![trigger bets_decided(again, now_secs, answers).contains((url, end))]
        bets_decided(again, now_secs, answers).contains((url, end)) <==> bets_decided(
            records,
            now_secs,
            answers,
        ).contains((url, end)) by {
        lemma_decided_are_results(again, now_secs, answers, shown, url, end);
        lemma_decided_are_results(records, now_secs, answers, shown, url, end);
    }
}

/// A record that is read back has the address and the result of the one that it was.
proof fn lemma_saved_same(
    records: Seq<RecordView>,
    results: Map<Seq<char>, BetResultView>,
    saved: Seq<RecordView>,
    again: Seq<RecordView>,
    k: int,
    j: int,
    now_secs: int,
    answers: Map<Seq<char>, Seq<char>>,
    shown: spec_fn((int, int)) -> Seq<char>,
)
    requires
        all_kept(records),
        all_lasting(records),
        amounts_written(results),
        saved == stamped_records(records, results),
        is_saveable(saved),
        again == read_back(saved),
        0 <= k < again.len(),
        0 <= j < saved.len(),
        in_file_order(saved).len() == saved.len(),
        in_file_order(saved)[k] == saved[j],
    ensures
        again[k].url == records[j].url,
        result_for(again[k], now_secs, answers, shown) == result_for(
            records[j],
            now_secs,
            answers,
            shown,
        ),
{
    let ordered = in_file_order(saved);
    assert(is_storable(records[j]));
    assert(is_lasting_bet(records[j].block));
    assert(saved[j] == stamped_record(records[j], results));
    lemma_result_kept(records[j], results, now_secs, answers, shown);
    if k < again.len() - 1 {
        assert(again[k] == ordered[k]);
    } else {
        assert(again[k] == trimmed_record(ordered[k]));
    }
}

/// A second run with the same answers writes the same file, whether it is given the same games or
/// none: no game is added, no result is stamped twice, and the order and the totals are the same.
pub proof fn law_same_answers_keep_the_file(
    existing: Seq<RecordView>,
    games: Seq<GameView>,
    now_secs: int,
    answers: Map<Seq<char>, Seq<char>>,
    shown: spec_fn((int, int)) -> Seq<char>,
    profit: Seq<char>,
)
    requires
        has_distinct_urls(existing),
        all_kept(existing),
        all_lasting(existing),
        new_games_recordable(existing, games),
        new_bets_readable(existing, games),
        ({
            let all = existing + new_records(existing, games);
            let results = results_of(all, now_secs, answers, shown);
            amounts_written(results) && is_saveable(stamped_records(all, results))
        }),
        !profit.contains('\n'),
    ensures
        ({
            let all = existing + new_records(existing, games);
            let file = run_file(all, now_secs, answers, shown, profit);
            let again = loaded(file);
            &&& run_file(
                again + new_records(again, games),
                now_secs,
                answers,
                shown,
                profit,
            ) == file
            &&& run_file(
                again + new_records(again, Seq::empty()),
                now_secs,
                answers,
                shown,
                profit,
            ) == file
        }),
{
    let all = existing + new_records(existing, games);
    let results = results_of(all, now_secs, answers, shown);
    let won = urls_with(results, true).len() as int;
    let lost = urls_with(results, false).len() as int;
    let again = loaded(run_file(all, now_secs, answers, shown, profit));
    lemma_kept_with_games(existing, games);
    lemma_lasting_with_games(existing, games);
    law_urls_stay_distinct(existing, games);
    law_same_answers_same_results(all, now_secs, answers, shown, profit);
    law_second_run_adds_nothing(existing, games, results, won, lost, profit);
    assert(again + new_records(again, games) =~= again);
    assert(again + new_records(again, Seq::empty()) =~= again);
    law_second_run_keeps_the_file(existing, games, results, won, lost, profit);
}

} // verus!
