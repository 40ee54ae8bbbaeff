//! Bringing the records up to date and writing the picks file.

use vstd::prelude::*;

use crate::calendar::{
    day_number, day_number_formula, days_ago, days_since, lemma_formula_counts_days, ymd_to_jdn,
};
use crate::ledger::{parse_section_date, section_date};
use crate::model::{game_views, Game, GameView};
use crate::numbers::{push_nat, show_nat};
use crate::odds_page::pair_views;
use crate::records::{
    game_to_record, names_fit, names_fit_rows, record_of, record_views, Record, RecordView,
};
use crate::results::{
    result_tag, stamp_block, stamped, stamped_line, tag_text, urls_with, BetResultView, ResultBook,
};
use crate::text::{
    chars_of, extend, extend_str, is_space, join, lines, string_of, strings, text_eq, trim_end,
    trim_end_of,
};
use crate::text_facts::{lemma_trim_end, lemma_trim_end_append, lemma_trim_end_space};

verus! {

/// The days for which results are looked up.
pub const RESULT_DAYS: i64 = 14;

/// A record has the given address.
pub open spec fn has_url(records: Seq<RecordView>, url: Seq<char>) -> bool {
    exists|i: int| 0 <= i < records.len() && (#[trigger] records[i]).url == url
}

/// A game that is to be added: it has an address, and no record has that address yet.
pub open spec fn is_new(records: Seq<RecordView>, game: GameView) -> bool {
    game.game_url.len() > 0 && !has_url(records, game.game_url)
}

/// The records of the games that are new: of several games with one address the first counts.
pub open spec fn new_records(records: Seq<RecordView>, games: Seq<GameView>) -> Seq<RecordView>
    decreases games.len(),
{
    if games.len() == 0 {
        Seq::empty()
    } else {
        let before = new_records(records, games.drop_last());
        if is_new(records + before, games.last()) {
            before.push(record_of(games.last()))
        } else {
            before
        }
    }
}

/// The game at a position of the list is added to the records.
pub open spec fn is_added(records: Seq<RecordView>, games: Seq<GameView>, i: int) -> bool {
    is_new(records + new_records(records, games.take(i)), games[i])
}

/// The names of the games that are added can be cut to the width of a name.
pub open spec fn new_names_fit(records: Seq<RecordView>, games: Seq<GameView>) -> bool {
    forall|i: int|
        0 <= i < games.len() && is_added(records, games, i) ==> names_fit(#[trigger] games[i])
}

/// The day of a record lies no more than the given days back, and not in the future.
pub open spec fn is_recent(day: Seq<char>, now_secs: int) -> bool {
    match section_date(day) {
        Some((mo, dy, yr)) => 0 <= days_ago(now_secs, yr, mo, dy) <= RESULT_DAYS,
        None => false,
    }
}

/// The address and the lines of each recent record with a pick.
pub open spec fn due_bets(records: Seq<RecordView>, now_secs: int) -> Seq<(Seq<char>, Seq<char>)>
    decreases records.len(),
{
    if records.len() == 0 {
        Seq::empty()
    } else {
        let before = due_bets(records.drop_last(), now_secs);
        let r = records.last();
        if r.picks > 0 && is_recent(r.day, now_secs) {
            before.push((r.url, r.block))
        } else {
            before
        }
    }
}

/// A record with the result of its bet, where there is one.
pub open spec fn stamped_record(
    r: RecordView,
    results: Map<Seq<char>, BetResultView>,
) -> RecordView {
    if results.dom().contains(r.url) {
        RecordView {
            day: r.day,
            url: r.url,
            block: stamped(r.block, result_tag(results[r.url].won, results[r.url].amount)),
            picks: r.picks,
        }
    } else {
        r
    }
}

pub open spec fn stamped_records(
    records: Seq<RecordView>,
    results: Map<Seq<char>, BetResultView>,
) -> Seq<RecordView> {
    records.map_values(|r: RecordView| stamped_record(r, results))
}

/// The number of picks of all the records.
pub open spec fn total_picks(records: Seq<RecordView>) -> int
    decreases records.len(),
{
    if records.len() == 0 {
        0
    } else {
        total_picks(records.drop_last()) + records.last().picks
    }
}

/// What orders the days: the day number of their date, or 0 where they have none.
pub open spec fn day_rank(day: Seq<char>) -> int {
    match section_date(day) {
        Some((mo, dy, yr)) => day_number_formula(yr, mo, dy),
        None => 0,
    }
}

/// The days of the records, each once, in the order in which they first occur.
pub open spec fn distinct_days(records: Seq<RecordView>) -> Seq<Seq<char>>
    decreases records.len(),
{
    if records.len() == 0 {
        Seq::empty()
    } else {
        let before = distinct_days(records.drop_last());
        if before.contains(records.last().day) {
            before
        } else {
            before.push(records.last().day)
        }
    }
}

/// `days` with `day` put in after the last one that does not rank lower.
pub open spec fn insert_day(days: Seq<Seq<char>>, day: Seq<char>) -> Seq<Seq<char>>
    decreases days.len(),
{
    if days.len() == 0 || day_rank(days.last()) >= day_rank(day) {
        days.push(day)
    } else {
        insert_day(days.drop_last(), day).push(days.last())
    }
}

/// The days from the latest to the earliest; days that rank equal keep their order.
pub open spec fn latest_first(days: Seq<Seq<char>>) -> Seq<Seq<char>>
    decreases days.len(),
{
    if days.len() == 0 {
        Seq::empty()
    } else {
        insert_day(latest_first(days.drop_last()), days.last())
    }
}

/// The days of the records from the latest to the earliest.
pub open spec fn day_order(records: Seq<RecordView>) -> Seq<Seq<char>> {
    latest_first(distinct_days(records))
}

/// The line of the totals.
pub open spec fn totals_line(picks: int, won: int, lost: int, profit: Seq<char>) -> Seq<char> {
    "Total PICKs: "@ + show_nat(picks) + " | Won: "@ + show_nat(won) + " | Lost: "@ + show_nat(lost)
        + " | Profit: "@ + profit + "\n"@
}

/// A record in the file.
pub open spec fn record_text(r: RecordView) -> Seq<char> {
    "["@ + r.url + "]\n"@ + r.block + "\n\n"@
}

/// The records of one day in the file.
pub open spec fn day_records(records: Seq<RecordView>, day: Seq<char>) -> Seq<char>
    decreases records.len(),
{
    if records.len() == 0 {
        Seq::empty()
    } else if records.last().day == day {
        day_records(records.drop_last(), day) + record_text(records.last())
    } else {
        day_records(records.drop_last(), day)
    }
}

/// One day in the file.
pub open spec fn section(records: Seq<RecordView>, day: Seq<char>) -> Seq<char> {
    "\n=== "@ + day + " ===\n"@ + day_records(records, day)
}

pub open spec fn sections(records: Seq<RecordView>, days: Seq<Seq<char>>) -> Seq<char>
    decreases days.len(),
{
    if days.len() == 0 {
        Seq::empty()
    } else {
        sections(records, days.drop_last()) + section(records, days.last())
    }
}

/// The picks file: the totals, then the records day by day, without white space at its end.
pub open spec fn picks_file(
    records: Seq<RecordView>,
    won: int,
    lost: int,
    profit: Seq<char>,
) -> Seq<char> {
    trim_end(
        totals_line(total_picks(records), won, lost, profit) + sections(
            records,
            day_order(records),
        ),
    )
}

/// The profit of all bets: its sign and its size in dollars with two decimals.
pub open spec fn profit_text(negative: bool, dollars: Seq<char>) -> Seq<char> {
    if negative {
        "-$"@ + dollars
    } else {
        "+$"@ + dollars
    }
}

fn url_known(records: &Vec<Record>, count: usize, url: &str) -> (r: bool)
    requires
        count <= records@.len(),
    ensures
        r == has_url(record_views(records@).take(count as int), url@),
{
    let wanted = chars_of(url);
    let ghost all = record_views(records@).take(count as int);
    for i in 0..count
        invariant
            wanted@ == url@,
            count <= records@.len(),
            all == record_views(records@).take(count as int),
            forall|j: int| 0 <= j < i ==> (#[trigger] all[j]).url != url@,
    {
        assert(all[i as int] == records@[i as int]@);
        if text_eq(&chars_of(records[i].url.as_str()), &wanted) {
            return true;
        }
    }
    false
}

/// A record with the address of a new game has been added where an earlier game has that address.
proof fn lemma_added_before(
    records: Seq<RecordView>,
    games: Seq<GameView>,
    url: Seq<char>,
)
    requires
        url.len() > 0,
        !has_url(records, url),
    ensures
        has_url(records + new_records(records, games), url) <==> exists|j: int|
            0 <= j < games.len() && (#[trigger] games[j]).game_url == url,
    decreases games.len(),
{
    let now = records + new_records(records, games);
    if games.len() == 0 {
        assert(now =~= records);
    } else {
        let d = games.drop_last();
        lemma_added_before(records, d, url);
        let before = records + new_records(records, d);
        let last = games.last();
        if is_new(before, last) {
            assert(now =~= before.push(record_of(last)));
            assert(now[now.len() - 1].url == last.game_url);
        }
        if has_url(before, url) {
            let k = choose|k: int| 0 <= k < before.len() && (#[trigger] before[k]).url == url;
            assert(now[k].url == url);
            let j = choose|j: int| 0 <= j < d.len() && (#[trigger] d[j]).game_url == url;
            assert(games[j].game_url == url);
        }
        if exists|j: int| 0 <= j < games.len() && (#[trigger] games[j]).game_url == url {
            let j = choose|j: int| 0 <= j < games.len() && (#[trigger] games[j]).game_url == url;
            if j < d.len() {
                assert(d[j].game_url == url);
            }
        }
        if has_url(now, url) && !has_url(before, url) {
            let k = choose|k: int| 0 <= k < now.len() && (#[trigger] now[k]).url == url;
            if k < before.len() {
                assert(before[k] == now[k]);
            }
            assert(games[games.len() - 1].game_url == url);
        }
    }
}

fn listed_before(games: &Vec<Game>, count: usize, url: &str) -> (r: bool)
    requires
        count <= games@.len(),
    ensures
        r == exists|j: int|
            0 <= j < count && (#[trigger] game_views(games@).take(count as int)[j]).game_url
                == url@,
{
    let wanted = chars_of(url);
    let ghost all = game_views(games@).take(count as int);
    for i in 0..count
        invariant
            wanted@ == url@,
            count <= games@.len(),
            all == game_views(games@).take(count as int),
            forall|j: int| 0 <= j < i ==> (#[trigger] all[j]).game_url != url@,
    {
        assert(all[i as int] == games@[i as int]@);
        if text_eq(&chars_of(games[i].game_url.as_str()), &wanted) {
            return true;
        }
    }
    false
}

/// Tells whether the names of the games that are added can be cut to the width of a name.
#[verifier::rlimit(40)]
pub fn new_games_fit(records: &Vec<Record>, games: &Vec<Game>) -> (r: bool)
    ensures
        r == new_names_fit(record_views(records@), game_views(games@)),
{
    let ghost rv = record_views(records@);
    let ghost gv = game_views(games@);
    assert(rv.take(rv.len() as int) =~= rv);
    for i in 0..games.len()
        invariant
            rv == record_views(records@),
            rv.take(rv.len() as int) == rv,
            gv == game_views(games@),
            forall|j: int| 0 <= j < i && is_added(rv, gv, j) ==> names_fit(#[trigger] gv[j]),
    {
        assert(gv[i as int] == games@[i as int]@);
        let game = &games[i];
        let url = game.game_url.as_str();
        proof {
            let before = rv + new_records(rv, gv.take(i as int));
            if url@.len() > 0 && !has_url(rv, url@) {
                lemma_added_before(rv, gv.take(i as int), url@);
            }
            if has_url(rv, url@) {
                let k = choose|k: int| 0 <= k < rv.len() && (#[trigger] rv[k]).url == url@;
                assert(before[k].url == url@);
            }
        }
        if !url.is_empty() && !url_known(records, records.len(), url) && !listed_before(
            games,
            i,
            url,
        ) && !names_fit_rows(game) {
            return false;
        }
    }
    true
}

/// The record of the game at position `i` is added where the game is.
proof fn lemma_next_record(records: Seq<RecordView>, games: Seq<GameView>, i: int)
    requires
        0 <= i < games.len(),
    ensures
        ({
            let before = records + new_records(records, games.take(i));
            records + new_records(records, games.take(i + 1)) == if is_added(records, games, i) {
                before.push(record_of(games[i]))
            } else {
                before
            }
        }),
{
    let before = new_records(records, games.take(i));
    assert(games.take(i + 1).drop_last() =~= games.take(i));
    assert(games.take(i + 1).last() == games[i]);
    assert(records + before.push(record_of(games[i])) =~= (records + before).push(
        record_of(games[i]),
    ));
}

/// Adds the records of the games that no record has the address of, and tells how many they are. Of
/// several games with one address the first is added. Games without an address are left out.
pub fn add_games(existing: Vec<Record>, games: &Vec<Game>) -> (r: (Vec<Record>, usize))
    requires
        new_names_fit(record_views(existing@), game_views(games@)),
    ensures
        record_views(r.0@) == record_views(existing@) + new_records(
            record_views(existing@),
            game_views(games@),
        ),
        r.1 == new_records(record_views(existing@), game_views(games@)).len(),
{
    let ghost rv = record_views(existing@);
    let ghost gv = game_views(games@);
    let mut all = existing;
    let known: usize = all.len();
    assert(rv + new_records(rv, gv.take(0)) =~= rv);
    for i in 0..games.len()
        invariant
            gv == game_views(games@),
            new_names_fit(rv, gv),
            known == rv.len(),
            record_views(all@) == rv + new_records(rv, gv.take(i as int)),
    {
        let game = &games[i];
        let url = game.game_url.as_str();
        proof {
            assert(gv[i as int] == game@);
            lemma_next_record(rv, gv, i as int);
            assert(record_views(all@).len() == all@.len());
            assert(record_views(all@).take(all@.len() as int) =~= record_views(all@));
        }
        if !url.is_empty() && !url_known(&all, all.len(), url) {
            assert(is_added(rv, gv, i as int));
            let record = game_to_record(game);
            let ghost was = all@;
            let ghost one = record@;
            all.push(record);
            assert(record_views(all@) =~= record_views(was).push(one));
        }
    }
    assert(gv.take(gv.len() as int) =~= gv);
    assert(record_views(all@).len() == all@.len());
    let added: usize = all.len() - known;
    (all, added)
}

fn recent(day: &str, now_secs: u64) -> (r: bool)
    requires
        now_secs <= i64::MAX,
    ensures
        r == is_recent(day@, now_secs as int),
{
    match parse_section_date(day) {
        Some((mo, dy, yr)) => {
            let age: i64 = days_since(now_secs, yr, mo, dy);
            0 <= age && age <= RESULT_DAYS
        },
        None => false,
    }
}

/// The bets whose results are looked up at `now_secs` seconds after the start of 1970, UTC: the
/// address and the lines of each record with a pick that is no more than 14 days old.
pub fn bets_to_check(records: &Vec<Record>, now_secs: u64) -> (r: Vec<(String, String)>)
    requires
        now_secs <= i64::MAX,
    ensures
        pair_views(r@) == due_bets(record_views(records@), now_secs as int),
{
    let ghost all = record_views(records@);
    let mut out: Vec<(String, String)> = Vec::new();
    assert(pair_views(out@) =~= due_bets(all.take(0), now_secs as int));
    for i in 0..records.len()
        invariant
            now_secs <= i64::MAX,
            all == record_views(records@),
            pair_views(out@) == due_bets(all.take(i as int), now_secs as int),
    {
        assert(all.take(i + 1).drop_last() =~= all.take(i as int));
        assert(all.take(i + 1).last() == records@[i as int]@);
        let record = &records[i];
        if record.picks > 0 && recent(record.day.as_str(), now_secs) {
            let ghost was = out@;
            let one: (String, String) = (record.url.clone(), record.block.clone());
            let ghost shown = (one.0@, one.1@);
            out.push(one);
            assert(pair_views(out@) =~= pair_views(was).push(shown));
        }
    }
    assert(all.take(all.len() as int) =~= all);
    out
}

/// Stamps the results on the records whose bets are decided.
pub fn stamp_records(records: Vec<Record>, results: &ResultBook) -> (r: Vec<Record>)
    requires
        results.wf(),
    ensures
        record_views(r@) == stamped_records(record_views(records@), results@),
{
    let ghost all = stamped_records(record_views(records@), results@);
    let mut out: Vec<Record> = Vec::new();
    assert(record_views(out@) =~= all.take(0));
    for i in 0..records.len()
        invariant
            results.wf(),
            all == stamped_records(record_views(records@), results@),
            record_views(out@) == all.take(i as int),
    {
        let old_record = &records[i];
        assert(record_views(records@)[i as int] == old_record@);
        let block: String = match results.get(old_record.url.as_str()) {
            Some(b) => stamp_block(
                old_record.block.as_str(),
                tag_text(b.won, b.amount.as_str()).as_str(),
            ),
            None => old_record.block.clone(),
        };
        let record = Record {
            day: old_record.day.clone(),
            url: old_record.url.clone(),
            block,
            picks: old_record.picks,
        };
        let ghost was = out@;
        let ghost one = record@;
        out.push(record);
        assert(one == all[i as int]);
        assert(record_views(out@) =~= record_views(was).push(one));
        assert(all.take(i + 1) =~= all.take(i as int).push(all[i as int]));
    }
    assert(all.len() == records@.len());
    assert(all.take(all.len() as int) =~= all);
    out
}

fn rank_of(day: &str) -> (r: i64)
    ensures
        r == day_rank(day@),
{
    match parse_section_date(day) {
        Some((mo, dy, yr)) => ymd_to_jdn(yr, mo, dy),
        None => 0,
    }
}

fn day_known(days: &Vec<String>, day: &str) -> (r: bool)
    ensures
        r == strings(days@).contains(day@),
{
    let wanted = chars_of(day);
    let ghost all = strings(days@);
    for i in 0..days.len()
        invariant
            wanted@ == day@,
            all == strings(days@),
            forall|j: int| 0 <= j < i ==> #[trigger] all[j] != day@,
    {
        assert(all[i as int] == days@[i as int]@);
        if text_eq(&chars_of(days[i].as_str()), &wanted) {
            assert(all[i as int] == day@);
            return true;
        }
    }
    assert(all.len() == days@.len());
    false
}

fn list_days(records: &Vec<Record>) -> (r: Vec<String>)
    ensures
        strings(r@) == distinct_days(record_views(records@)),
{
    let ghost all = record_views(records@);
    let mut out: Vec<String> = Vec::new();
    assert(strings(out@) =~= distinct_days(all.take(0)));
    for i in 0..records.len()
        invariant
            all == record_views(records@),
            strings(out@) == distinct_days(all.take(i as int)),
    {
        assert(all.take(i + 1).drop_last() =~= all.take(i as int));
        assert(all.take(i + 1).last() == records@[i as int]@);
        if !day_known(&out, records[i].day.as_str()) {
            let ghost was = out@;
            out.push(records[i].day.clone());
            assert(strings(out@) =~= strings(was).push(records@[i as int].day@));
        }
    }
    assert(all.take(all.len() as int) =~= all);
    out
}

/// What is put in before the last one leaves the last one where it is.
proof fn lemma_insert_before_last(days: Seq<Seq<char>>, day: Seq<char>, p: int)
    requires
        0 <= p < days.len(),
    ensures
        days.drop_last().insert(p, day).push(days.last()) == days.insert(p, day),
{
    assert(days.drop_last().insert(p, day).push(days.last()) =~= days.insert(p, day));
}

/// `insert_day` puts the day at the one position where the ranks before it are not lower and the
/// next one is.
#[verifier::spinoff_prover]
proof fn lemma_insert_day(days: Seq<Seq<char>>, day: Seq<char>, p: int)
    requires
        0 <= p <= days.len(),
        p == 0 || day_rank(days[p - 1]) >= day_rank(day),
        forall|i: int| p <= i < days.len() ==> day_rank(#[trigger] days[i]) < day_rank(day),
    ensures
        insert_day(days, day) == days.insert(p, day),
    decreases days.len(),
{
    if days.len() == p {
        assert(days.push(day) =~= days.insert(p, day));
    } else {
        assert(day_rank(days[days.len() - 1]) < day_rank(day));
        assert forall|i: int| p <= i < days.drop_last().len() implies day_rank(
            #[trigger] days.drop_last()[i],
        ) < day_rank(day) by {
            assert(days.drop_last()[i] == days[i]);
        }
        if p > 0 {
            assert(days.drop_last()[p - 1] == days[p - 1]);
        }
        lemma_insert_day(days.drop_last(), day, p);
        lemma_insert_before_last(days, day, p);
    }
}

fn put_day(days: &mut Vec<String>, day: String)
    ensures
        strings(final(days)@) == insert_day(strings(old(days)@), day@),
{
    let ghost before = strings(days@);
    let ghost shown = day@;
    let rank: i64 = rank_of(day.as_str());
    let mut p: usize = days.len();
    while p > 0 && rank_of(days[p - 1].as_str()) < rank
        invariant
            p <= days@.len(),
            before == strings(days@),
            rank == day_rank(shown),
            forall|i: int|
                p <= i < before.len() ==> day_rank(#[trigger] before[i]) < day_rank(shown),
        decreases p,
    {
        assert(before[p - 1] == days@[p - 1]@);
        p = p - 1;
    }
    proof {
        if p > 0 {
            assert(before[p - 1] == days@[p - 1]@);
        }
        lemma_insert_day(before, shown, p as int);
    }
    let ghost was = days@;
    let ghost one = day;
    days.insert(p, day);
    assert(strings(days@) =~= strings(was).insert(p as int, one@));
}

/// The days of the records from the latest to the earliest.
pub fn ordered_days(records: &Vec<Record>) -> (r: Vec<String>)
    ensures
        strings(r@) == day_order(record_views(records@)),
{
    let days = list_days(records);
    let ghost all = strings(days@);
    let mut out: Vec<String> = Vec::new();
    assert(strings(out@) =~= latest_first(all.take(0)));
    for i in 0..days.len()
        invariant
            all == strings(days@),
            strings(out@) == latest_first(all.take(i as int)),
    {
        assert(all.take(i + 1).drop_last() =~= all.take(i as int));
        assert(all.take(i + 1).last() == days@[i as int]@);
        put_day(&mut out, days[i].clone());
    }
    assert(all.take(all.len() as int) =~= all);
    out
}

/// Tells whether the number of picks of all the records fits in `usize`.
pub fn picks_fit(records: &Vec<Record>) -> (r: bool)
    ensures
        r == (total_picks(record_views(records@)) <= usize::MAX),
{
    let ghost all = record_views(records@);
    let mut n: usize = 0;
    for i in 0..records.len()
        invariant
            all == record_views(records@),
            n == total_picks(all.take(i as int)),
    {
        assert(all.take(i + 1).drop_last() =~= all.take(i as int));
        assert(all.take(i + 1).last() == records@[i as int]@);
        proof {
            lemma_total_grows(records@, i + 1);
        }
        if records[i].picks > usize::MAX - n {
            return false;
        }
        n = n + records[i].picks;
    }
    assert(all.take(all.len() as int) =~= all);
    true
}

/// The number of picks of all the records.
pub fn picks_of(records: &Vec<Record>) -> (r: usize)
    requires
        total_picks(record_views(records@)) <= usize::MAX,
    ensures
        r == total_picks(record_views(records@)),
{
    let ghost all = record_views(records@);
    let mut n: usize = 0;
    for i in 0..records.len()
        invariant
            all == record_views(records@),
            total_picks(all) <= usize::MAX,
            n == total_picks(all.take(i as int)),
    {
        assert(all.take(i + 1).drop_last() =~= all.take(i as int));
        assert(all.take(i + 1).last() == records@[i as int]@);
        proof {
            lemma_total_grows(records@, i + 1);
        }
        n = n + records[i].picks;
    }
    assert(all.take(all.len() as int) =~= all);
    n
}

proof fn lemma_total_grows(records: Seq<Record>, k: int)
    requires
        0 <= k <= records.len(),
    ensures
        total_picks(record_views(records).take(k)) <= total_picks(record_views(records)),
    decreases records.len(),
{
    let all = record_views(records);
    if k < records.len() {
        let shorter = records.drop_last();
        lemma_total_grows(shorter, k);
        assert(record_views(shorter) =~= all.drop_last());
        assert(all.drop_last().take(k) =~= all.take(k));
        assert(all.last() == records.last()@);
    } else {
        assert(all.take(k) =~= all);
    }
}

fn push_record(out: &mut Vec<char>, record: &Record)
    ensures
        final(out)@ == old(out)@ + record_text(record@),
{
    extend_str(out, "[");
    extend_str(out, record.url.as_str());
    extend_str(out, "]\n");
    extend_str(out, record.block.as_str());
    extend_str(out, "\n\n");
    assert(out@ =~= old(out)@ + record_text(record@));
}

fn push_section(out: &mut Vec<char>, records: &Vec<Record>, day: &str)
    ensures
        final(out)@ == old(out)@ + section(record_views(records@), day@),
{
    let ghost all = record_views(records@);
    let ghost start = old(out)@;
    let ghost head = "\n=== "@ + day@ + " ===\n"@;
    let wanted = chars_of(day);
    extend_str(out, "\n=== ");
    extend(out, &wanted);
    extend_str(out, " ===\n");
    assert(out@ =~= start + (head + day_records(all.take(0), day@)));
    for i in 0..records.len()
        invariant
            wanted@ == day@,
            all == record_views(records@),
            out@ == start + (head + day_records(all.take(i as int), day@)),
    {
        assert(all.take(i + 1).drop_last() =~= all.take(i as int));
        assert(all.take(i + 1).last() == records@[i as int]@);
        if text_eq(&chars_of(records[i].day.as_str()), &wanted) {
            push_record(out, &records[i]);
            assert(out@ =~= start + (head + day_records(all.take(i + 1), day@)));
        }
    }
    assert(all.take(all.len() as int) =~= all);
}

fn push_totals(out: &mut Vec<char>, picks: usize, won: usize, lost: usize, profit: &str)
    ensures
        final(out)@ == old(out)@ + totals_line(picks as int, won as int, lost as int, profit@),
{
    extend_str(out, "Total PICKs: ");
    push_nat(out, picks as u64);
    extend_str(out, " | Won: ");
    push_nat(out, won as u64);
    extend_str(out, " | Lost: ");
    push_nat(out, lost as u64);
    extend_str(out, " | Profit: ");
    extend_str(out, profit);
    extend_str(out, "\n");
    assert(out@ =~= old(out)@ + totals_line(picks as int, won as int, lost as int, profit@));
}

/// The text of the picks file.
pub fn render_picks(records: &Vec<Record>, won: usize, lost: usize, profit: &str) -> (r: String)
    requires
        total_picks(record_views(records@)) <= usize::MAX,
    ensures
        r@ == picks_file(record_views(records@), won as int, lost as int, profit@),
{
    let ghost all = record_views(records@);
    let ghost head = totals_line(total_picks(all), won as int, lost as int, profit@);
    let days = ordered_days(records);
    let ghost order = strings(days@);
    let picks: usize = picks_of(records);
    let mut out: Vec<char> = Vec::new();
    push_totals(&mut out, picks, won, lost, profit);
    assert(out@ =~= head + sections(all, order.take(0)));
    for i in 0..days.len()
        invariant
            all == record_views(records@),
            order == strings(days@),
            out@ == head + sections(all, order.take(i as int)),
    {
        assert(order.take(i + 1).drop_last() =~= order.take(i as int));
        assert(order.take(i + 1).last() == days@[i as int]@);
        push_section(&mut out, records, days[i].as_str());
        assert(out@ =~= head + sections(all, order.take(i + 1)));
    }
    assert(order.take(order.len() as int) =~= order);
    string_of(trim_end_of(&out))
}

/// The text of the picks file with the results stamped on the records.
pub fn saved_file(records: Vec<Record>, results: &ResultBook, profit: &str) -> (r: String)
    requires
        results.wf(),
        total_picks(record_views(records@)) <= usize::MAX,
    ensures
        r@ == picks_file(
            stamped_records(record_views(records@), results@),
            urls_with(results@, true).len() as int,
            urls_with(results@, false).len() as int,
            profit@,
        ),
{
    proof {
        law_stamping_keeps_totals(record_views(records@), results@);
    }
    let (won, lost): (usize, usize) = results.tally();
    let marked = stamp_records(records, results);
    render_picks(&marked, won, lost, profit)
}

/// The profit of all bets as it is shown.
pub fn profit_label(negative: bool, dollars: &str) -> (r: String)
    ensures
        r@ == profit_text(negative, dollars@),
{
    let mut out = if negative {
        chars_of("-$")
    } else {
        chars_of("+$")
    };
    extend_str(&mut out, dollars);
    string_of(&out)
}

/// A bet is due where it belongs to a record with a pick that is no more than 14 days old, and only
/// there.
pub proof fn law_due_bets_are_recent_picks(
    records: Seq<RecordView>,
    now_secs: int,
    bet: (Seq<char>, Seq<char>),
)
    ensures
        due_bets(records, now_secs).contains(bet) <==> exists|i: int|
            0 <= i < records.len() && (#[trigger] records[i]).picks > 0 && is_recent(
                records[i].day,
                now_secs,
            ) && bet == (records[i].url, records[i].block),
    decreases records.len(),
{
    if records.len() > 0 {
        let d = records.drop_last();
        law_due_bets_are_recent_picks(d, now_secs, bet);
        let before = due_bets(d, now_secs);
        let now = due_bets(records, now_secs);
        if now.contains(bet) {
            let k = now.index_of(bet);
            if k < before.len() {
                assert(before[k] == bet);
                let i = choose|i: int|
                    0 <= i < d.len() && (#[trigger] d[i]).picks > 0 && is_recent(d[i].day, now_secs)
                        && bet == (d[i].url, d[i].block);
                assert(records[i] == d[i]);
            } else {
                assert(records[records.len() - 1].picks > 0);
            }
        }
        if exists|i: int|
            0 <= i < records.len() && (#[trigger] records[i]).picks > 0 && is_recent(
                records[i].day,
                now_secs,
            ) && bet == (records[i].url, records[i].block) {
            let i = choose|i: int|
                0 <= i < records.len() && (#[trigger] records[i]).picks > 0 && is_recent(
                    records[i].day,
                    now_secs,
                ) && bet == (records[i].url, records[i].block);
            if i < d.len() {
                assert(d[i] == records[i]);
                let k = before.index_of(bet);
                assert(now[k] == bet);
            } else {
                assert(now[now.len() - 1] == bet);
            }
        }
    }
}

/// Stamping results on the records changes neither the number of their picks nor the order of
/// their days.
pub proof fn law_stamping_keeps_totals(
    records: Seq<RecordView>,
    results: Map<Seq<char>, BetResultView>,
)
    ensures
        stamped_records(records, results).len() == records.len(),
        total_picks(stamped_records(records, results)) == total_picks(records),
        day_order(stamped_records(records, results)) == day_order(records),
{
    lemma_stamped_totals(records, results);
}

proof fn lemma_stamped_totals(
    records: Seq<RecordView>,
    results: Map<Seq<char>, BetResultView>,
)
    ensures
        total_picks(stamped_records(records, results)) == total_picks(records),
        distinct_days(stamped_records(records, results)) == distinct_days(records),
    decreases records.len(),
{
    let now = stamped_records(records, results);
    if records.len() > 0 {
        lemma_stamped_totals(records.drop_last(), results);
        assert(now.drop_last() =~= stamped_records(records.drop_last(), results));
        assert(now.last() == stamped_record(records.last(), results));
    }
}

/// One more game adds its record behind the others where it has an address that neither a record
/// nor an earlier game has, and nothing elsewhere.
pub proof fn law_each_game_is_added_once(
    records: Seq<RecordView>,
    games: Seq<GameView>,
    game: GameView,
)
    ensures
        ({
            let wanted = game.game_url.len() > 0 && (forall|i: int|
                0 <= i < records.len() ==> (#[trigger] records[i]).url != game.game_url) && (forall|
                j: int,
            |
                0 <= j < games.len() ==> (#[trigger] games[j]).game_url != game.game_url);
            &&& wanted ==> new_records(records, games.push(game)) == new_records(
                records,
                games,
            ).push(record_of(game))
            &&& !wanted ==> new_records(records, games.push(game)) == new_records(records, games)
        }),
        new_records(records, Seq::empty()) == Seq::<RecordView>::empty(),
{
    let url = game.game_url;
    let now = records + new_records(records, games);
    assert(games.push(game).drop_last() =~= games);
    if url.len() > 0 {
        if has_url(records, url) {
            let k = choose|k: int| 0 <= k < records.len() && (#[trigger] records[k]).url == url;
            assert(now[k].url == url);
        } else {
            lemma_added_before(records, games, url);
        }
    }
}

/// A day with a date is recent from that day to the fourteenth day after it.
pub proof fn law_recent_days(day: Seq<char>, now_secs: int, mo: int, dy: int, yr: int)
    requires
        section_date(day) == Some((mo, dy, yr)),
        1 <= mo <= 12,
    ensures
        is_recent(day, now_secs) <==> day_number(yr, mo, dy) <= day_number(1970, 1, 1) + now_secs
            / 86_400 <= day_number(yr, mo, dy) + 14,
{
    lemma_formula_counts_days(yr, mo, dy);
    assert(day_number(1970, 1, 1) == 2_440_588);
}

/// Of the days with a date, whatever their month, those are recent that rank at most as high as
/// today and at most 14 lower. A day without a date is never recent.
pub proof fn law_recent_days_rank_near_today(day: Seq<char>, now_secs: int)
    ensures
        section_date(day) is Some ==> (is_recent(day, now_secs) <==> day_rank(day) <= day_number(
            1970,
            1,
            1,
        ) + now_secs / 86_400 <= day_rank(day) + 14),
        section_date(day) is None ==> !is_recent(day, now_secs),
{
    assert(day_number(1970, 1, 1) == 2_440_588);
}

/// The bets of two lists of records are those of the first followed by those of the second; one
/// record with a pick and a recent day gives its address and its lines.
pub proof fn law_due_bets_follow_the_records(
    a: Seq<RecordView>,
    b: Seq<RecordView>,
    now_secs: int,
)
    ensures
        due_bets(a + b, now_secs) == due_bets(a, now_secs) + due_bets(b, now_secs),
        a.len() == 1 ==> due_bets(a, now_secs) == if a[0].picks > 0 && is_recent(
            a[0].day,
            now_secs,
        ) {
            seq![(a[0].url, a[0].block)]
        } else {
            Seq::empty()
        },
        a.len() == 0 ==> due_bets(a, now_secs) == Seq::<(Seq<char>, Seq<char>)>::empty(),
    decreases b.len(),
{
    if a.len() == 1 {
        let none = Seq::<(Seq<char>, Seq<char>)>::empty();
        assert(due_bets(a.drop_last(), now_secs) == none);
        assert(none.push((a[0].url, a[0].block)) =~= seq![(a[0].url, a[0].block)]);
    }
    if b.len() == 0 {
        assert(a + b =~= a);
        assert(due_bets(a, now_secs) + due_bets(b, now_secs) =~= due_bets(a, now_secs));
    } else {
        law_due_bets_follow_the_records(a, b.drop_last(), now_secs);
        assert((a + b).drop_last() =~= a + b.drop_last());
        assert(due_bets(a + b, now_secs) =~= due_bets(a, now_secs) + due_bets(b, now_secs));
    }
}

/// Every record with a result is stamped with it, line by line, and every other stays as it is;
/// none changes its place, its day, its address or its picks.
pub proof fn law_every_result_is_stamped(
    records: Seq<RecordView>,
    results: Map<Seq<char>, BetResultView>,
    i: int,
)
    requires
        0 <= i < records.len(),
    ensures
        ({
            let r = records[i];
            let now = stamped_records(records, results)[i];
            &&& stamped_records(records, results).len() == records.len()
            &&& now.day == r.day && now.url == r.url && now.picks == r.picks
            &&& !results.dom().contains(r.url) ==> now.block == r.block
            &&& results.dom().contains(r.url) && results[r.url].won ==> now.block == join(
                lines(r.block).map_values(
                    |l: Seq<char>| stamped_line(l, "WON +$"@ + results[r.url].amount),
                ),
                "\n"@,
            )
            &&& results.dom().contains(r.url) && !results[r.url].won ==> now.block == join(
                lines(r.block).map_values(|l: Seq<char>| stamped_line(l, "LOST -$100.00"@)),
                "\n"@,
            )
        }),
{
}

/// The picks of two lists of records are those of both together, and one record has its own.
pub proof fn law_picks_add_up(a: Seq<RecordView>, b: Seq<RecordView>)
    ensures
        total_picks(a + b) == total_picks(a) + total_picks(b),
        a.len() == 1 ==> total_picks(a) == a[0].picks,
        a.len() == 0 ==> total_picks(a) == 0,
    decreases b.len(),
{
    if a.len() == 1 {
        assert(total_picks(a.drop_last()) == 0);
    }
    if b.len() == 0 {
        assert(a + b =~= a);
    } else {
        law_picks_add_up(a, b.drop_last());
        assert((a + b).drop_last() =~= a + b.drop_last());
    }
}

/// The file starts with a line that tells the picks of all the records, the bets that were won, the
/// bets that were lost and the profit, in this order.
pub proof fn law_file_starts_with_the_totals(
    records: Seq<RecordView>,
    won: int,
    lost: int,
    profit: Seq<char>,
)
    requires
        profit.len() > 0,
        !is_space(profit.last()),
    ensures
        ({
            let file = picks_file(records, won, lost, profit);
            let first = "Total PICKs: "@ + show_nat(total_picks(records)) + " | Won: "@ + show_nat(
                won,
            ) + " | Lost: "@ + show_nat(lost) + " | Profit: "@ + profit;
            &&& file.len() >= first.len()
            &&& file.take(first.len() as int) == first
            &&& file.len() > first.len() ==> file[first.len() as int] == '\n'
        }),
{
    reveal_strlit("\n");
    let first = "Total PICKs: "@ + show_nat(total_picks(records)) + " | Won: "@ + show_nat(won)
        + " | Lost: "@ + show_nat(lost) + " | Profit: "@ + profit;
    let rest = "\n"@ + sections(records, day_order(records));
    let file = picks_file(records, won, lost, profit);
    assert(totals_line(total_picks(records), won, lost, profit) + sections(
        records,
        day_order(records),
    ) =~= first + rest);
    assert(first.last() == profit.last());
    lemma_trim_end(rest);
    let end = trim_end(rest);
    if end.len() > 0 {
        lemma_trim_end_append(first, rest);
        assert(end[0] == rest[0]);
    } else {
        assert(rest.skip(0) =~= rest);
        lemma_trim_end_space(first, rest);
    }
    assert(file.take(first.len() as int) =~= first);
}

/// The profit is written as its size behind its sign and a dollar sign.
pub proof fn law_profit_has_its_sign(dollars: Seq<char>)
    ensures
        profit_text(true, dollars) == seq!['-', '$'] + dollars,
        profit_text(false, dollars) == seq!['+', '$'] + dollars,
{
    reveal_strlit("-$");
    reveal_strlit("+$");
    assert("-$"@ =~= seq!['-', '$']);
    assert("+$"@ =~= seq!['+', '$']);
}

/// A day with a date ranks by its day number, where its month is one that the calendar has, and by
/// the formula in any case; one without a date ranks 0.
pub proof fn law_rank_of_a_day(day: Seq<char>)
    ensures
        section_date(day) matches Some((mo, dy, yr)) ==> day_rank(day) == day_number_formula(
            yr,
            mo,
            dy,
        ) && (1 <= mo <= 12 ==> day_rank(day) == day_number(yr, mo, dy)),
        section_date(day) is None ==> day_rank(day) == 0,
{
    if let Some((mo, dy, yr)) = section_date(day) {
        if 1 <= mo <= 12 {
            lemma_formula_counts_days(yr, mo, dy);
        }
    }
}

} // verus!
