//! The records day by day, in the order in which the picks file holds them.

use vstd::prelude::*;

use crate::calendar::{is_date, law_day_number_orders_dates, lemma_formula_counts_days};
use crate::ledger::section_date;
use crate::picks_file::{
    day_order, day_rank, day_records, distinct_days, insert_day, latest_first, sections,
    total_picks,
};
use crate::records::RecordView;

verus! {

/// The records of one day, in order.
pub open spec fn of_day(records: Seq<RecordView>, day: Seq<char>) -> Seq<RecordView>
    decreases records.len(),
{
    if records.len() == 0 {
        Seq::empty()
    } else if records.last().day == day {
        of_day(records.drop_last(), day).push(records.last())
    } else {
        of_day(records.drop_last(), day)
    }
}

/// The records of each of the days, one day after the other.
pub open spec fn by_day(records: Seq<RecordView>, days: Seq<Seq<char>>) -> Seq<RecordView>
    decreases days.len(),
{
    if days.len() == 0 {
        Seq::empty()
    } else {
        by_day(records, days.drop_last()) + of_day(records, days.last())
    }
}

/// The records in the order in which the picks file holds them.
pub open spec fn in_file_order(records: Seq<RecordView>) -> Seq<RecordView> {
    by_day(records, day_order(records))
}

/// No day ranks higher than one before it.
pub open spec fn is_latest_first(days: Seq<Seq<char>>) -> bool {
    forall|i: int, j: int|
        0 <= i <= j < days.len() ==> day_rank(#[trigger] days[i]) >= day_rank(#[trigger] days[j])
}

/// Where a day is put in.
proof fn lemma_insert_position(days: Seq<Seq<char>>, day: Seq<char>) -> (p: int)
    ensures
        0 <= p <= days.len(),
        insert_day(days, day) == days.insert(p, day),
        p > 0 ==> day_rank(days[p - 1]) >= day_rank(day),
        p < days.len() ==> day_rank(days[p]) < day_rank(day),
    decreases days.len(),
{
    if days.len() == 0 || day_rank(days.last()) >= day_rank(day) {
        assert(days.push(day) =~= days.insert(days.len() as int, day));
        days.len() as int
    } else {
        let shorter = days.drop_last();
        let p = lemma_insert_position(shorter, day);
        assert(shorter.insert(p, day).push(days.last()) =~= days.insert(p, day));
        p
    }
}

proof fn lemma_inserted_contains(days: Seq<Seq<char>>, day: Seq<char>, p: int, d: Seq<char>)
    requires
        0 <= p <= days.len(),
    ensures
        days.insert(p, day).contains(d) <==> days.contains(d) || d == day,
{
    let now = days.insert(p, day);
    assert(now[p] == day);
    if days.contains(d) {
        let i = days.index_of(d);
        assert(now[if i < p { i } else { i + 1 }] == d);
    }
    if now.contains(d) {
        let i = now.index_of(d);
        if i != p {
            assert(days[if i < p { i } else { i - 1 }] == d);
        }
    }
}

proof fn lemma_inserted_once(days: Seq<Seq<char>>, day: Seq<char>, p: int)
    requires
        0 <= p <= days.len(),
        days.no_duplicates(),
        !days.contains(day),
    ensures
        days.insert(p, day).no_duplicates(),
{
    let now = days.insert(p, day);
    assert forall|i: int, j: int| 0 <= i < now.len() && 0 <= j < now.len() && i != j implies now[i]
        != now[j] by {
        let a = if i < p { i } else { i - 1 };
        let b = if j < p { j } else { j - 1 };
        if i != p {
            assert(now[i] == days[a]);
        }
        if j != p {
            assert(now[j] == days[b]);
        }
    }
}

proof fn lemma_inserted_sorted(days: Seq<Seq<char>>, day: Seq<char>, p: int)
    requires
        is_latest_first(days),
        0 <= p <= days.len(),
        p > 0 ==> day_rank(days[p - 1]) >= day_rank(day),
        p < days.len() ==> day_rank(days[p]) < day_rank(day),
    ensures
        is_latest_first(days.insert(p, day)),
{
    let now = days.insert(p, day);
    assert forall|i: int, j: int| 0 <= i <= j < now.len() implies day_rank(#[trigger] now[i])
        >= day_rank(#[trigger] now[j]) by {
        let a = if i < p { i } else { i - 1 };
        let b = if j < p { j } else { j - 1 };
        if i != p {
            assert(now[i] == days[a]);
        }
        if j != p {
            assert(now[j] == days[b]);
        }
        if i < p && j == p {
            assert(day_rank(days[a]) >= day_rank(days[p - 1]));
        }
        if i == p && j > p {
            assert(day_rank(days[p]) >= day_rank(days[b]));
        }
    }
}

proof fn lemma_insert_day_facts(days: Seq<Seq<char>>, day: Seq<char>)
    requires
        is_latest_first(days),
    ensures
        is_latest_first(insert_day(days, day)),
        forall|d: Seq<char>| #[trigger]
            insert_day(days, day).contains(d) <==> days.contains(d) || d == day,
        days.no_duplicates() && !days.contains(day) ==> insert_day(days, day).no_duplicates(),
{
    let p = lemma_insert_position(days, day);
    lemma_inserted_sorted(days, day, p);
    assert forall|d: Seq<char>| #[trigger] insert_day(days, day).contains(d) <==> days.contains(d)
        || d == day by {
        lemma_inserted_contains(days, day, p, d);
    }
    if days.no_duplicates() && !days.contains(day) {
        lemma_inserted_once(days, day, p);
    }
}

proof fn lemma_latest_first_facts(days: Seq<Seq<char>>)
    ensures
        is_latest_first(latest_first(days)),
        forall|d: Seq<char>| #[trigger] latest_first(days).contains(d) <==> days.contains(d),
        days.no_duplicates() ==> latest_first(days).no_duplicates(),
    decreases days.len(),
{
    if days.len() > 0 {
        let shorter = days.drop_last();
        lemma_latest_first_facts(shorter);
        lemma_insert_day_facts(latest_first(shorter), days.last());
        assert forall|d: Seq<char>| #[trigger] latest_first(days).contains(d) <==> days.contains(
            d,
        ) by {
            if days.contains(d) {
                let k = days.index_of(d);
                if k < shorter.len() {
                    assert(shorter[k] == d);
                }
            }
            if shorter.contains(d) {
                let k = shorter.index_of(d);
                assert(days[k] == d);
            }
            assert(days[days.len() - 1] == days.last());
        }
        if days.no_duplicates() {
            assert(!shorter.contains(days.last())) by {
                if shorter.contains(days.last()) {
                    let k = shorter.index_of(days.last());
                    assert(days[k] == days[days.len() - 1]);
                }
            }
            assert(shorter.no_duplicates());
        }
    }
}

proof fn lemma_distinct_days(records: Seq<RecordView>)
    ensures
        distinct_days(records).no_duplicates(),
        forall|d: Seq<char>| #[trigger]
            distinct_days(records).contains(d) <==> exists|i: int|
                0 <= i < records.len() && (#[trigger] records[i]).day == d,
    decreases records.len(),
{
    if records.len() > 0 {
        let shorter = records.drop_last();
        lemma_distinct_days(shorter);
        let before = distinct_days(shorter);
        let now = distinct_days(records);
        let day = records.last().day;
        assert forall|d: Seq<char>| #[trigger] now.contains(d) <==> exists|i: int|
            0 <= i < records.len() && (#[trigger] records[i]).day == d by {
            if now.contains(d) {
                let k = now.index_of(d);
                if k < before.len() {
                    assert(before[k] == d);
                    assert(before.contains(d));
                    let i = choose|i: int|
                        0 <= i < shorter.len() && (#[trigger] shorter[i]).day == d;
                    assert(records[i].day == d);
                } else {
                    assert(records[records.len() - 1].day == d);
                }
            }
            if exists|i: int| 0 <= i < records.len() && (#[trigger] records[i]).day == d {
                let i = choose|i: int| 0 <= i < records.len() && (#[trigger] records[i]).day == d;
                if i < shorter.len() {
                    assert(shorter[i].day == d);
                    assert(before.contains(d));
                    let k = before.index_of(d);
                    assert(now[k] == d);
                } else if before.contains(day) {
                    assert(now.contains(d));
                } else {
                    assert(now[before.len() as int] == d);
                }
            }
        }
        if !before.contains(day) {
            assert forall|i: int, j: int|
                0 <= i < now.len() && 0 <= j < now.len() && i != j implies now[i] != now[j] by {
                if i < before.len() && j < before.len() {
                    assert(before[i] != before[j]);
                } else if i < before.len() {
                    assert(before.contains(before[i]));
                } else {
                    assert(before.contains(before[j]));
                }
            }
        }
    }
}

/// A day with a later date ranks higher.
pub proof fn law_later_dates_rank_higher(
    day: Seq<char>,
    date: (int, int, int),
    later_day: Seq<char>,
    later: (int, int, int),
)
    requires
        section_date(day) == Some((date.1, date.2, date.0)),
        section_date(later_day) == Some((later.1, later.2, later.0)),
        is_date(date.0, date.1, date.2),
        is_date(later.0, later.1, later.2),
        date.0 < later.0 || (date.0 == later.0 && (date.1 < later.1 || (date.1 == later.1 && date.2
            < later.2))),
    ensures
        day_rank(day) < day_rank(later_day),
{
    lemma_formula_counts_days(date.0, date.1, date.2);
    lemma_formula_counts_days(later.0, later.1, later.2);
    law_day_number_orders_dates(date.0, date.1, date.2, later.0, later.1, later.2);
}

/// The days of the picks file are the days of its records, each once, the latest first.
pub proof fn law_days_latest_first(records: Seq<RecordView>)
    ensures
        day_order(records).no_duplicates(),
        is_latest_first(day_order(records)),
        forall|d: Seq<char>| #[trigger]
            day_order(records).contains(d) <==> exists|i: int|
                0 <= i < records.len() && (#[trigger] records[i]).day == d,
{
    lemma_distinct_days(records);
    lemma_latest_first_facts(distinct_days(records));
}

proof fn lemma_by_day_push(records: Seq<RecordView>, days: Seq<Seq<char>>)
    requires
        records.len() > 0,
        days.no_duplicates(),
    ensures
        by_day(records, days).to_multiset() == if days.contains(records.last().day) {
            by_day(records.drop_last(), days).to_multiset().insert(records.last())
        } else {
            by_day(records.drop_last(), days).to_multiset()
        },
    decreases days.len(),
{
    broadcast use vstd::seq_lib::group_to_multiset_ensures;

    if days.len() > 0 {
        let r = records.last();
        let d = records.drop_last();
        let shorter = days.drop_last();
        let day = days.last();
        lemma_by_day_push(records, shorter);
        vstd::seq_lib::lemma_multiset_commutative(by_day(records, shorter), of_day(records, day));
        vstd::seq_lib::lemma_multiset_commutative(by_day(d, shorter), of_day(d, day));
        if day == r.day {
            assert(!shorter.contains(r.day)) by {
                if shorter.contains(r.day) {
                    let k = shorter.index_of(r.day);
                    assert(days[k] == days[days.len() - 1]);
                }
            }
            assert(days[days.len() - 1] == r.day);
            assert(of_day(records, day).to_multiset() =~= of_day(d, day).to_multiset().insert(r));
            assert(by_day(records, days).to_multiset() =~= by_day(d, days).to_multiset().insert(r));
        } else {
            assert(days.contains(r.day) <==> shorter.contains(r.day)) by {
                if days.contains(r.day) {
                    let k = days.index_of(r.day);
                    assert(shorter[k] == r.day);
                }
                if shorter.contains(r.day) {
                    let k = shorter.index_of(r.day);
                    assert(days[k] == r.day);
                }
            }
            assert(of_day(records, day) == of_day(d, day));
            if shorter.contains(r.day) {
                assert(by_day(records, days).to_multiset() =~= by_day(d, days).to_multiset().insert(
                    r,
                ));
            }
        }
    }
}

proof fn lemma_by_day_all(records: Seq<RecordView>, days: Seq<Seq<char>>)
    requires
        days.no_duplicates(),
        forall|i: int| 0 <= i < records.len() ==> days.contains((#[trigger] records[i]).day),
    ensures
        by_day(records, days).to_multiset() == records.to_multiset(),
    decreases records.len(),
{
    broadcast use vstd::seq_lib::group_to_multiset_ensures;

    if records.len() == 0 {
        lemma_by_day_none(records, days);
        assert(records =~= by_day(records, days));
    } else {
        let d = records.drop_last();
        assert forall|i: int| 0 <= i < d.len() implies days.contains((#[trigger] d[i]).day) by {
            assert(d[i] == records[i]);
        }
        lemma_by_day_all(d, days);
        lemma_by_day_push(records, days);
        assert(days.contains(records[records.len() - 1].day));
        assert(d.push(records.last()) =~= records);
    }
}

proof fn lemma_by_day_none(records: Seq<RecordView>, days: Seq<Seq<char>>)
    requires
        records.len() == 0,
    ensures
        by_day(records, days).len() == 0,
    decreases days.len(),
{
    if days.len() > 0 {
        lemma_by_day_none(records, days.drop_last());
    }
}

/// Grouping the records by day loses none of them and repeats none.
pub proof fn law_grouping_keeps_records(records: Seq<RecordView>)
    ensures
        in_file_order(records).to_multiset() == records.to_multiset(),
{
    law_days_latest_first(records);
    lemma_by_day_all(records, day_order(records));
}

proof fn lemma_of_day_concat(a: Seq<RecordView>, b: Seq<RecordView>, day: Seq<char>)
    ensures
        of_day(a + b, day) == of_day(a, day) + of_day(b, day),
    decreases b.len(),
{
    if b.len() == 0 {
        assert(a + b =~= a);
        assert(of_day(a, day) + of_day(b, day) =~= of_day(a, day));
    } else {
        lemma_of_day_concat(a, b.drop_last(), day);
        assert((a + b).drop_last() =~= a + b.drop_last());
        if b.last().day == day {
            assert((of_day(a, day) + of_day(b.drop_last(), day)).push(b.last()) =~= of_day(a, day)
                + of_day(b, day));
        }
    }
}

pub(crate) proof fn lemma_of_day_twice(
    records: Seq<RecordView>,
    first: Seq<char>,
    second: Seq<char>,
)
    ensures
        of_day(of_day(records, first), second) == if first == second {
            of_day(records, first)
        } else {
            Seq::empty()
        },
        day_records(of_day(records, first), first) == day_records(records, first),
        forall|i: int|
            0 <= i < of_day(records, first).len() ==> (#[trigger] of_day(records, first)[i]).day
                == first,
    decreases records.len(),
{
    if records.len() > 0 {
        let d = records.drop_last();
        lemma_of_day_twice(d, first, second);
        if records.last().day == first {
            assert(of_day(records, first).drop_last() =~= of_day(d, first));
        }
    }
}

proof fn lemma_of_day_grouped(records: Seq<RecordView>, days: Seq<Seq<char>>, day: Seq<char>)
    requires
        days.no_duplicates(),
    ensures
        of_day(by_day(records, days), day) == if days.contains(day) {
            of_day(records, day)
        } else {
            Seq::empty()
        },
    decreases days.len(),
{
    if days.len() > 0 {
        let shorter = days.drop_last();
        lemma_of_day_grouped(records, shorter, day);
        lemma_of_day_concat(by_day(records, shorter), of_day(records, days.last()), day);
        lemma_of_day_twice(records, days.last(), day);
        if days.last() == day {
            assert(!shorter.contains(day)) by {
                if shorter.contains(day) {
                    let k = shorter.index_of(day);
                    assert(days[k] == days[days.len() - 1]);
                }
            }
            assert(days[days.len() - 1] == day);
            assert(Seq::<RecordView>::empty() + of_day(records, day) =~= of_day(records, day));
        } else {
            assert(days.contains(day) <==> shorter.contains(day)) by {
                if days.contains(day) {
                    let k = days.index_of(day);
                    assert(shorter[k] == day);
                }
                if shorter.contains(day) {
                    let k = shorter.index_of(day);
                    assert(days[k] == day);
                }
            }
            let kept = of_day(by_day(records, shorter), day);
            assert(kept + Seq::<RecordView>::empty() =~= kept);
        }
    }
}

proof fn lemma_day_records_grouped(records: Seq<RecordView>, days: Seq<Seq<char>>, day: Seq<char>)
    requires
        days.no_duplicates(),
        days.contains(day),
    ensures
        day_records(by_day(records, days), day) == day_records(records, day),
{
    lemma_of_day_grouped(records, days, day);
    lemma_of_day_twice(by_day(records, days), day, day);
    lemma_of_day_twice(records, day, day);
}

pub(crate) proof fn lemma_sections_grouped(
    records: Seq<RecordView>,
    days: Seq<Seq<char>>,
    some: Seq<Seq<char>>,
)
    requires
        days.no_duplicates(),
        forall|i: int| 0 <= i < some.len() ==> days.contains(#[trigger] some[i]),
    ensures
        sections(by_day(records, days), some) == sections(records, some),
    decreases some.len(),
{
    if some.len() > 0 {
        let shorter = some.drop_last();
        assert forall|i: int| 0 <= i < shorter.len() implies days.contains(
            #[trigger] shorter[i],
        ) by {
            assert(shorter[i] == some[i]);
        }
        lemma_sections_grouped(records, days, shorter);
        assert(days.contains(some[some.len() - 1]));
        lemma_day_records_grouped(records, days, some.last());
    }
}

proof fn lemma_total_concat(a: Seq<RecordView>, b: Seq<RecordView>)
    ensures
        total_picks(a + b) == total_picks(a) + total_picks(b),
    decreases b.len(),
{
    if b.len() == 0 {
        assert(a + b =~= a);
    } else {
        lemma_total_concat(a, b.drop_last());
        assert((a + b).drop_last() =~= a + b.drop_last());
    }
}

proof fn lemma_total_push(records: Seq<RecordView>, days: Seq<Seq<char>>)
    requires
        records.len() > 0,
        days.no_duplicates(),
    ensures
        total_picks(by_day(records, days)) == total_picks(by_day(records.drop_last(), days)) + (
        if days.contains(records.last().day) {
            records.last().picks
        } else {
            0
        }),
    decreases days.len(),
{
    if days.len() > 0 {
        let r = records.last();
        let d = records.drop_last();
        let shorter = days.drop_last();
        let day = days.last();
        lemma_total_push(records, shorter);
        lemma_total_concat(by_day(records, shorter), of_day(records, day));
        lemma_total_concat(by_day(d, shorter), of_day(d, day));
        assert(shorter.no_duplicates());
        if day == r.day {
            assert(!shorter.contains(r.day)) by {
                if shorter.contains(r.day) {
                    let k = shorter.index_of(r.day);
                    assert(days[k] == days[days.len() - 1]);
                }
            }
            assert(days[days.len() - 1] == r.day);
            assert(of_day(records, day).drop_last() =~= of_day(d, day));
        } else {
            assert(days.contains(r.day) <==> shorter.contains(r.day)) by {
                if days.contains(r.day) {
                    let k = days.index_of(r.day);
                    assert(shorter[k] == r.day);
                }
                if shorter.contains(r.day) {
                    let k = shorter.index_of(r.day);
                    assert(days[k] == r.day);
                }
            }
        }
    }
}

pub(crate) proof fn lemma_total_grouped(records: Seq<RecordView>, days: Seq<Seq<char>>)
    requires
        days.no_duplicates(),
        forall|i: int| 0 <= i < records.len() ==> days.contains((#[trigger] records[i]).day),
    ensures
        total_picks(by_day(records, days)) == total_picks(records),
    decreases records.len(),
{
    if records.len() == 0 {
        lemma_by_day_none(records, days);
    } else {
        let d = records.drop_last();
        assert forall|i: int| 0 <= i < d.len() implies days.contains((#[trigger] d[i]).day) by {
            assert(d[i] == records[i]);
        }
        lemma_total_grouped(d, days);
        lemma_total_push(records, days);
        assert(days.contains(records[records.len() - 1].day));
    }
}

proof fn lemma_distinct_days_same(a: Seq<RecordView>, b: Seq<RecordView>, day: Seq<char>)
    requires
        b.len() > 0,
        forall|i: int| 0 <= i < b.len() ==> (#[trigger] b[i]).day == day,
        !distinct_days(a).contains(day),
    ensures
        distinct_days(a + b) == distinct_days(a).push(day),
    decreases b.len(),
{
    let d = b.drop_last();
    assert((a + b).drop_last() =~= a + d);
    assert(b[b.len() - 1].day == day);
    if d.len() == 0 {
        assert(a + d =~= a);
    } else {
        assert forall|i: int| 0 <= i < d.len() implies (#[trigger] d[i]).day == day by {
            assert(d[i] == b[i]);
        }
        lemma_distinct_days_same(a, d, day);
        let now = distinct_days(a).push(day);
        assert(now[now.len() - 1] == day);
    }
}

pub(crate) proof fn lemma_distinct_days_grouped(records: Seq<RecordView>, days: Seq<Seq<char>>)
    requires
        days.no_duplicates(),
        forall|i: int| 0 <= i < days.len() ==> of_day(records, #[trigger] days[i]).len() > 0,
    ensures
        distinct_days(by_day(records, days)) == days,
    decreases days.len(),
{
    if days.len() == 0 {
        assert(days =~= Seq::<Seq<char>>::empty());
    } else {
        let shorter = days.drop_last();
        let day = days.last();
        assert forall|i: int| 0 <= i < shorter.len() implies of_day(
            records,
            #[trigger] shorter[i],
        ).len() > 0 by {
            assert(shorter[i] == days[i]);
        }
        lemma_distinct_days_grouped(records, shorter);
        assert(!shorter.contains(day)) by {
            if shorter.contains(day) {
                let k = shorter.index_of(day);
                assert(days[k] == days[days.len() - 1]);
            }
        }
        assert(of_day(records, days[days.len() - 1]).len() > 0);
        lemma_of_day_twice(records, day, day);
        lemma_distinct_days_same(by_day(records, shorter), of_day(records, day), day);
        assert(shorter.push(day) =~= days);
    }
}

pub(crate) proof fn lemma_sorted_days_stay(days: Seq<Seq<char>>)
    requires
        is_latest_first(days),
    ensures
        latest_first(days) == days,
    decreases days.len(),
{
    if days.len() == 0 {
        assert(days =~= Seq::<Seq<char>>::empty());
    } else {
        let shorter = days.drop_last();
        assert(is_latest_first(shorter));
        lemma_sorted_days_stay(shorter);
        if shorter.len() > 0 {
            assert(day_rank(days[shorter.len() - 1]) >= day_rank(days[days.len() - 1]));
        }
        assert(shorter.push(days.last()) =~= days);
    }
}

pub(crate) proof fn lemma_of_day_some(records: Seq<RecordView>, i: int)
    requires
        0 <= i < records.len(),
    ensures
        of_day(records, records[i].day).contains(records[i]),
    decreases records.len(),
{
    let day = records[i].day;
    let d = records.drop_last();
    if i == records.len() - 1 {
        let now = of_day(records, day);
        assert(now[now.len() - 1] == records[i]);
    } else {
        assert(d[i] == records[i]);
        lemma_of_day_some(d, i);
        let k = of_day(d, day).index_of(records[i]);
        assert(of_day(records, day)[k] == records[i]);
    }
}

/// Days that rank equal keep the order in which they first occur.
pub proof fn law_equal_days_keep_their_order(days: Seq<Seq<char>>, rank: int)
    ensures
        latest_first(days).filter(|d: Seq<char>| day_rank(d) == rank) == days.filter(
            |d: Seq<char>| day_rank(d) == rank,
        ),
    decreases days.len(),
{
    let same = |d: Seq<char>| day_rank(d) == rank;
    if days.len() == 0 {
        assert(latest_first(days) =~= days);
    } else {
        let d = days.drop_last();
        law_equal_days_keep_their_order(d, rank);
        lemma_filter_last(days, same);
        lemma_insert_keeps_order(latest_first(d), days.last(), rank);
    }
}

proof fn lemma_filter_last(days: Seq<Seq<char>>, same: spec_fn(Seq<char>) -> bool)
    requires
        days.len() > 0,
    ensures
        days.filter(same) == if same(days.last()) {
            days.drop_last().filter(same).push(days.last())
        } else {
            days.drop_last().filter(same)
        },
{
    reveal(Seq::filter);
}

proof fn lemma_insert_keeps_order(days: Seq<Seq<char>>, day: Seq<char>, rank: int)
    ensures
        ({
            let same = |d: Seq<char>| day_rank(d) == rank;
            insert_day(days, day).filter(same) == if day_rank(day) == rank {
                days.filter(same).push(day)
            } else {
                days.filter(same)
            }
        }),
    decreases days.len(),
{
    let same = |d: Seq<char>| day_rank(d) == rank;
    let now = insert_day(days, day);
    if days.len() == 0 || day_rank(days.last()) >= day_rank(day) {
        assert(now.drop_last() =~= days);
        lemma_filter_last(now, same);
    } else {
        let d = days.drop_last();
        lemma_insert_keeps_order(d, day, rank);
        assert(now.drop_last() =~= insert_day(d, day));
        lemma_filter_last(now, same);
        lemma_filter_last(days, same);
    }
}

/// One more record adds its day behind the others where no record before it has that day.
pub proof fn law_each_day_is_listed_once(records: Seq<RecordView>, r: RecordView)
    ensures
        distinct_days(records.push(r)) == if exists|i: int|
            0 <= i < records.len() && (#[trigger] records[i]).day == r.day {
            distinct_days(records)
        } else {
            distinct_days(records).push(r.day)
        },
        distinct_days(Seq::empty()) == Seq::<Seq<char>>::empty(),
{
    assert(records.push(r).drop_last() =~= records);
    lemma_distinct_days(records);
}

} // verus!
