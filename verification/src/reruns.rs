//! What a run adds to the records, and that a second run adds nothing.

use vstd::prelude::*;

use crate::grouping::{in_file_order, law_grouping_keeps_records};
use crate::ledger::loaded;
use crate::model::GameView;
use crate::picks_file::{has_url, is_added, is_new, new_records, picks_file, stamped_records};
use crate::records::{RecordView, record_of};
use crate::results::BetResultView;
use crate::round_trip::{is_saveable, law_file_reads_back, read_back};

verus! {

/// The address of a record that was written to the picks file is read back from it.
proof fn lemma_url_found(
    records: Seq<RecordView>,
    won: int,
    lost: int,
    profit: Seq<char>,
    i: int,
)
    requires
        is_saveable(records),
        won >= 0,
        lost >= 0,
        !profit.contains('\n'),
        0 <= i < records.len(),
    ensures
        has_url(loaded(picks_file(records, won, lost, profit)), records[i].url),
{
    broadcast use vstd::seq_lib::group_to_multiset_ensures;

    law_file_reads_back(records, won, lost, profit);
    law_grouping_keeps_records(records);
    assert(records.contains(records[i]));
    assert(records.to_multiset().count(records[i]) > 0);
    let all = in_file_order(records);
    assert(all.contains(records[i]));
    let k = all.index_of(records[i]);
    assert(read_back(records)[k].url == records[i].url);
}

/// An address that a list of records lacks and a longer one has stands in what was added.
proof fn lemma_url_in_part(a: Seq<RecordView>, b: Seq<RecordView>, url: Seq<char>)
    ensures
        has_url(a + b, url) <==> has_url(a, url) || has_url(b, url),
{
    let c = a + b;
    if has_url(c, url) {
        let k = choose|k: int| 0 <= k < c.len() && (#[trigger] c[k]).url == url;
        if k < a.len() {
            assert(a[k].url == url);
        } else {
            assert(b[k - a.len()].url == url);
        }
    }
    if has_url(a, url) {
        let k = choose|k: int| 0 <= k < a.len() && (#[trigger] a[k]).url == url;
        assert(c[k].url == url);
    }
    if has_url(b, url) {
        let k = choose|k: int| 0 <= k < b.len() && (#[trigger] b[k]).url == url;
        assert(c[k + a.len()].url == url);
    }
}

proof fn lemma_new_record_has_url(records: Seq<RecordView>, games: Seq<GameView>, i: int)
    requires
        0 <= i < games.len(),
        is_new(records, games[i]),
    ensures
        has_url(new_records(records, games), games[i].game_url),
    decreases games.len(),
{
    let d = games.drop_last();
    let now = new_records(records, games);
    let before = new_records(records, d);
    let url = games[i].game_url;
    if i < games.len() - 1 {
        assert(d[i] == games[i]);
        lemma_new_record_has_url(records, d, i);
    } else if is_new(records + before, games.last()) {
        assert(now[now.len() - 1].url == url);
    } else {
        lemma_url_in_part(records, before, url);
    }
    if has_url(before, url) {
        let k = choose|k: int| 0 <= k < before.len() && (#[trigger] before[k]).url == url;
        assert(now[k] == before[k]);
    }
}

/// Only games that no record has the address of are added, and each added record is that of a
/// game with an address.
pub proof fn law_only_new_games_are_added(
    records: Seq<RecordView>,
    games: Seq<GameView>,
    i: int,
)
    requires
        0 <= i < new_records(records, games).len(),
    ensures
        !has_url(records, new_records(records, games)[i].url),
        exists|k: int|
            0 <= k < games.len() && is_added(records, games, k) && new_records(records, games)[i]
                == record_of(#[trigger] games[k]),
    decreases games.len(),
{
    if games.len() > 0 {
        let d = games.drop_last();
        let before = new_records(records, d);
        let n = d.len() as int;
        if i < before.len() {
            law_only_new_games_are_added(records, d, i);
            let k = choose|k: int|
                0 <= k < d.len() && is_added(records, d, k) && before[i] == record_of(
                    #[trigger] d[k],
                );
            assert(games[k] == d[k]);
            assert(games.take(k) =~= d.take(k));
            assert(is_added(records, games, k));
        } else {
            lemma_url_in_part(records, before, games.last().game_url);
            assert(games.take(n) =~= d);
            assert(is_added(records, games, n));
            assert(new_records(records, games)[i] == record_of(games[n]));
        }
    }
}

/// Games that are all recorded already, or have no address, add nothing.
pub proof fn law_known_games_add_nothing(records: Seq<RecordView>, games: Seq<GameView>)
    requires
        forall|i: int|
            0 <= i < games.len() ==> (#[trigger] games[i]).game_url.len() == 0 || has_url(
                records,
                games[i].game_url,
            ),
    ensures
        new_records(records, games).len() == 0,
    decreases games.len(),
{
    if games.len() > 0 {
        let d = games.drop_last();
        assert forall|i: int| 0 <= i < d.len() implies (#[trigger] d[i]).game_url.len() == 0
            || has_url(records, d[i].game_url) by {
            assert(d[i] == games[i]);
        }
        law_known_games_add_nothing(records, d);
        let last = games[games.len() - 1];
        lemma_url_in_part(records, new_records(records, d), last.game_url);
        assert(!is_new(records + new_records(records, d), last));
    }
}

/// A second run on the same games adds nothing to what the first run wrote, whatever results the
/// first run stamped on the records.
pub proof fn law_second_run_adds_nothing(
    existing: Seq<RecordView>,
    games: Seq<GameView>,
    results: Map<Seq<char>, BetResultView>,
    won: int,
    lost: int,
    profit: Seq<char>,
)
    requires
        is_saveable(stamped_records(existing + new_records(existing, games), results)),
        won >= 0,
        lost >= 0,
        !profit.contains('\n'),
    ensures
        ({
            let saved = stamped_records(existing + new_records(existing, games), results);
            new_records(loaded(picks_file(saved, won, lost, profit)), games).len() == 0
        }),
{
    let added = new_records(existing, games);
    let all = existing + added;
    let saved = stamped_records(all, results);
    let again = loaded(picks_file(saved, won, lost, profit));
    assert forall|i: int| 0 <= i < games.len() implies (#[trigger] games[i]).game_url.len() == 0
        || has_url(again, games[i].game_url) by {
        let url = games[i].game_url;
        if url.len() > 0 {
            let k = if has_url(existing, url) {
                choose|k: int| 0 <= k < existing.len() && (#[trigger] existing[k]).url == url
            } else {
                assert(is_new(existing, games[i]));
                lemma_new_record_has_url(existing, games, i);
                let j = choose|j: int| 0 <= j < added.len() && (#[trigger] added[j]).url == url;
                assert(all[existing.len() + j] == added[j]);
                existing.len() + j
            };
            assert(all[k].url == url);
            assert(saved[k].url == url);
            lemma_url_found(saved, won, lost, profit, k);
        }
    }
    law_known_games_add_nothing(again, games);
}

/// No two records have the same address.
pub open spec fn has_distinct_urls(records: Seq<RecordView>) -> bool {
    forall|i: int, j: int|
        0 <= i < j < records.len() ==> (#[trigger] records[i]).url != (#[trigger] records[j]).url
}

/// The address of a record is its key: where no two records have the same address, none do with the
/// new games added, whatever addresses these have.
pub proof fn law_urls_stay_distinct(records: Seq<RecordView>, games: Seq<GameView>)
    requires
        has_distinct_urls(records),
    ensures
        has_distinct_urls(records + new_records(records, games)),
    decreases games.len(),
{
    let now = records + new_records(records, games);
    if games.len() == 0 {
        assert(now =~= records);
    } else {
        let d = games.drop_last();
        law_urls_stay_distinct(records, d);
        let before = records + new_records(records, d);
        if is_new(before, games.last()) {
            assert(now =~= before.push(record_of(games.last())));
            assert forall|i: int, j: int| 0 <= i < j < now.len() implies (#[trigger] now[i]).url
                != (#[trigger] now[j]).url by {
                assert(now[i] == before[i]);
                if j < before.len() {
                    assert(now[j] == before[j]);
                }
            }
        }
    }
}

/// Records in another order have distinct addresses where they had them before.
proof fn lemma_distinct_reordered(a: Seq<RecordView>, b: Seq<RecordView>)
    requires
        has_distinct_urls(a),
        a.to_multiset() == b.to_multiset(),
    ensures
        has_distinct_urls(b),
{
    broadcast use vstd::seq_lib::group_to_multiset_ensures;

    assert(a.no_duplicates());
    a.lemma_multiset_has_no_duplicates();
    b.lemma_multiset_has_no_duplicates_conv();
    assert forall|i: int, j: int| 0 <= i < j < b.len() implies (#[trigger] b[i]).url != (
    #[trigger] b[j]).url by {
        assert(b.contains(b[i]) && b.contains(b[j]));
        assert(a.to_multiset().count(b[i]) > 0 && a.to_multiset().count(b[j]) > 0);
        assert(a.contains(b[i]) && a.contains(b[j]));
        let m = a.index_of(b[i]);
        let n = a.index_of(b[j]);
        assert(b[i] != b[j]);
        assert(m != n);
        if m < n {
            assert(a[m].url != a[n].url);
        } else {
            assert(a[n].url != a[m].url);
        }
    }
}

/// What a run writes has distinct addresses where the records before it had, whatever games it adds
/// and whatever results it stamps.
pub proof fn law_written_urls_are_distinct(
    existing: Seq<RecordView>,
    games: Seq<GameView>,
    results: Map<Seq<char>, BetResultView>,
    won: int,
    lost: int,
    profit: Seq<char>,
)
    requires
        has_distinct_urls(existing),
        is_saveable(stamped_records(existing + new_records(existing, games), results)),
        won >= 0,
        lost >= 0,
        !profit.contains('\n'),
    ensures
        ({
            let saved = stamped_records(existing + new_records(existing, games), results);
            has_distinct_urls(loaded(picks_file(saved, won, lost, profit)))
        }),
{
    let all = existing + new_records(existing, games);
    let saved = stamped_records(all, results);
    law_urls_stay_distinct(existing, games);
    assert forall|i: int, j: int| 0 <= i < j < saved.len() implies (#[trigger] saved[i]).url != (
    #[trigger] saved[j]).url by {
        assert(saved[i].url == all[i].url && saved[j].url == all[j].url);
    }
    law_file_reads_back(saved, won, lost, profit);
    law_grouping_keeps_records(saved);
    let ordered = in_file_order(saved);
    lemma_distinct_reordered(saved, ordered);
    assert(ordered.len() == saved.len()) by {
        broadcast use vstd::seq_lib::group_to_multiset_ensures;

        assert(ordered.to_multiset().len() == saved.to_multiset().len());
    }
    let again = read_back(saved);
    assert forall|i: int, j: int| 0 <= i < j < again.len() implies (#[trigger] again[i]).url != (
    #[trigger] again[j]).url by {
        assert(again[i].url == ordered[i].url && again[j].url == ordered[j].url);
    }
}

} // verus!
