//! What is written to the picks file is read back from it.

use vstd::prelude::*;

use crate::grouping::{
    by_day, in_file_order, law_days_latest_first, law_grouping_keeps_records,
    lemma_distinct_days_grouped, lemma_of_day_some,
    lemma_of_day_twice, lemma_sections_grouped, lemma_sorted_days_stay, lemma_total_grouped, of_day,
};
use crate::ledger::{
    Reading, closed_record, headings_readable, is_day_line, is_url_line, lemma_day_line_len, loaded,
    read_line, read_lines, read_record, start_reading,
};
use crate::numbers::{lemma_show_nat, only_digits, show_nat};
use crate::picks_file::{
    day_order, day_records, distinct_days, picks_file, record_text, section, sections, total_picks,
    totals_line,
};
use crate::records::{RecordView, count_picks};
use crate::text::{
    contains, is_space, join, lines, starts_with, strip_cr, trim, trim_end, trim_start,
};
use crate::text_facts::{
    all_space, lemma_contains_space_after, lemma_joined_lines, lemma_last_line,
    lemma_last_line_start, lemma_last_of_lines, lemma_lines_concat, lemma_lines_ended,
    lemma_lines_hold_no_feed, lemma_not_blank, lemma_one_line, lemma_trim_end,
    lemma_trim_end_append, lemma_trim_end_space, lemma_trim_start_space, no_cr_end,
};

verus! {

/// A line of a record that reads back as one: it is not blank, and neither the heading of a day
/// nor an address.
pub open spec fn is_record_line(line: Seq<char>) -> bool {
    trim(line).len() > 0 && !is_day_line(line) && !is_url_line(line)
}

/// Lines of text that read back as the lines of a record. The last of them is not ended.
pub open spec fn is_block(block: Seq<char>) -> bool {
    &&& block.len() > 0
    &&& block.last() != '\n'
    &&& block.last() != '\r'
    &&& join(lines(block), "\n"@) == block
    &&& forall|i: int| 0 <= i < lines(block).len() ==> is_record_line(#[trigger] lines(block)[i])
}

/// A record that can be kept in the picks file: it has an address, the address and the day are one
/// line each, and its picks are those of its lines.
pub open spec fn is_storable(r: RecordView) -> bool {
    &&& r.url.len() > 0
    &&& !r.url.contains('\n')
    &&& !r.day.contains('\n')
    &&& is_block(r.block)
    &&& r.picks == count_picks(lines(r.block))
}

pub open spec fn all_storable(records: Seq<RecordView>) -> bool {
    forall|i: int| 0 <= i < records.len() ==> is_storable(#[trigger] records[i])
}

/// A record whose lines end in no white space.
pub open spec fn trimmed_record(r: RecordView) -> RecordView {
    let block = trim_end(r.block);
    RecordView { day: r.day, url: r.url, block, picks: count_picks(lines(block)) }
}

/// Records that can be written to the picks file and read back: there is one at least, and the last
/// one in the file is still a record without the white space at its end.
pub open spec fn is_saveable(records: Seq<RecordView>) -> bool {
    &&& records.len() > 0
    &&& all_storable(records)
    &&& is_block(trim_end(in_file_order(records).last().block))
}

/// What is read back of records that were written: the records in the order of the file, the last
/// one without the white space at its end.
pub open spec fn read_back(records: Seq<RecordView>) -> Seq<RecordView> {
    let all = in_file_order(records);
    all.drop_last().push(trimmed_record(all.last()))
}

/// Lines belong to a record only where it has an address.
spec fn is_sound(r: Reading) -> bool {
    r.block.len() > 0 ==> r.url.len() > 0
}

/// None of the lines is a heading without room for a day.
spec fn none_bare(ls: Seq<Seq<char>>) -> bool {
    forall|i: int| 0 <= i < ls.len() ==> #[trigger] ls[i] != "=== ==="@
}

/// A text that is empty or ends a line.
spec fn is_ended(s: Seq<char>) -> bool {
    s.len() == 0 || s.last() == '\n'
}

proof fn lemma_read_concat(r: Reading, a: Seq<Seq<char>>, b: Seq<Seq<char>>)
    ensures
        read_lines(r, a + b) == read_lines(read_lines(r, a), b),
    decreases b.len(),
{
    if b.len() == 0 {
        assert(a + b =~= a);
    } else {
        lemma_read_concat(r, a, b.drop_last());
        assert((a + b).drop_last() =~= a + b.drop_last());
    }
}

proof fn lemma_read_block(r: Reading, ls: Seq<Seq<char>>)
    requires
        r.url.len() > 0,
        forall|i: int| 0 <= i < ls.len() ==> is_record_line(#[trigger] ls[i]),
    ensures
        read_lines(r, ls) == (Reading {
            records: r.records,
            day: r.day,
            url: r.url,
            block: r.block + ls,
        }),
    decreases ls.len(),
{
    if ls.len() == 0 {
        assert(r.block + ls =~= r.block);
    } else {
        let d = ls.drop_last();
        assert forall|i: int| 0 <= i < d.len() implies is_record_line(#[trigger] d[i]) by {
            assert(d[i] == ls[i]);
        }
        lemma_read_block(r, d);
        assert(is_record_line(ls[ls.len() - 1]));
        assert((r.block + d).push(ls.last()) =~= r.block + ls);
    }
}

proof fn lemma_read_one(r: Reading, line: Seq<char>)
    ensures
        read_lines(r, seq![line]) == read_line(r, line),
{
    assert(seq![line].drop_last() =~= Seq::<Seq<char>>::empty());
    assert(read_lines(r, Seq::empty()) == r);
}

/// The address of a record in the file.
spec fn url_line(url: Seq<char>) -> Seq<char> {
    seq!['['] + url + seq![']']
}

/// The heading of a day in the file.
spec fn day_line(day: Seq<char>) -> Seq<char> {
    "=== "@ + day + " ==="@
}

proof fn lemma_url_line(url: Seq<char>)
    ensures
        !is_day_line(url_line(url)),
        is_url_line(url_line(url)),
        url_line(url).subrange(1, url_line(url).len() - 1) == url,
{
    let l = url_line(url);
    reveal_strlit("=== ");
    assert(l[0] == '[');
    assert(l.subrange(0, 1) =~= seq!['[']);
    assert(l.subrange(l.len() - 1, l.len() as int) =~= seq![']']);
    assert(l.subrange(1, l.len() - 1) =~= url);
    if starts_with(l, "=== "@) {
        assert(l.subrange(0, 4)[0] == l[0]);
    }
}

proof fn lemma_day_line(day: Seq<char>)
    ensures
        is_day_line(day_line(day)),
        day_line(day).subrange(4, day_line(day).len() - 4) == day,
        day_line(day).len() == day.len() + 8,
        day_line(day).last() == '=',
{
    let l = day_line(day);
    reveal_strlit("=== ");
    reveal_strlit(" ===");
    assert(l.subrange(0, 4) =~= "=== "@);
    assert(l.subrange(l.len() - 4, l.len() as int) =~= " ==="@);
    assert(l.subrange(4, l.len() - 4) =~= day);
}

proof fn lemma_bare_is_day_line()
    ensures
        is_day_line("=== ==="@),
{
    reveal_strlit("=== ===");
    reveal_strlit("=== ");
    reveal_strlit(" ===");
    assert("=== ==="@.subrange(0, 4) =~= "=== "@);
    assert("=== ==="@.subrange(3, 7) =~= " ==="@);
}

proof fn lemma_empty_line()
    ensures
        !is_day_line(Seq::empty()),
        !is_url_line(Seq::empty()),
        trim(Seq::empty()).len() == 0,
        lines(seq!['\n']) == seq![Seq::<char>::empty()],
        Seq::<char>::empty() != "=== ==="@,
{
    reveal_strlit("=== ");
    reveal_strlit("=== ===");
    lemma_one_line(Seq::empty());
    assert(Seq::<char>::empty().push('\n') =~= seq!['\n']);
}

/// The lines of a record in the file: its address, its own lines and an empty one.
proof fn lemma_record_lines(r: RecordView)
    requires
        is_storable(r),
    ensures
        lines(record_text(r)) == seq![url_line(r.url)] + lines(r.block) + seq![Seq::empty()],
        is_ended(record_text(r)),
        none_bare(lines(record_text(r))),
        lines(record_text(r).drop_last().drop_last()) == seq![url_line(r.url)] + lines(r.block),
        record_text(r).len() > 2,
        record_text(r)[record_text(r).len() - 3] == r.block.last(),
        record_text(r)[record_text(r).len() - 2] == '\n',
{
    reveal_strlit("[");
    reveal_strlit("]\n");
    reveal_strlit("\n\n");
    let head = url_line(r.url).push('\n');
    let body = r.block.push('\n');
    let t = record_text(r);
    assert(t =~= head + body + seq!['\n']);
    assert(t.drop_last().drop_last() =~= head + r.block);
    assert forall|i: int| 0 <= i < url_line(r.url).len() implies url_line(r.url)[i] != '\n' by {
        if 0 < i && i <= r.url.len() {
            assert(r.url[i - 1] != '\n');
        }
    }
    lemma_one_line(url_line(r.url));
    lemma_lines_ended(r.block);
    lemma_empty_line();
    lemma_lines_concat(head + body, seq!['\n']);
    lemma_lines_concat(head, body);
    lemma_lines_concat(head, r.block);
    let ls = lines(t);
    lemma_bare_is_day_line();
    lemma_url_line(r.url);
    assert forall|i: int| 0 <= i < ls.len() implies #[trigger] ls[i] != "=== ==="@ by {
        if 0 < i && i <= lines(r.block).len() {
            assert(ls[i] == lines(r.block)[i - 1]);
            assert(is_record_line(lines(r.block)[i - 1]));
        }
    }
}

/// Reading a record of the day that is being read adds it.
proof fn lemma_read_record(r: Reading, one: RecordView)
    requires
        is_sound(r),
        is_storable(one),
        r.day == one.day,
    ensures
        ({
            let s = read_lines(r, lines(record_text(one)));
            &&& is_sound(s)
            &&& s.day == r.day
            &&& closed_record(s).records == closed_record(r).records.push(one)
        }),
{
    let head = seq![url_line(one.url)];
    let body = lines(one.block);
    let tail = seq![Seq::<char>::empty()];
    lemma_record_lines(one);
    lemma_url_line(one.url);
    lemma_empty_line();
    lemma_read_concat(r, head + body, tail);
    lemma_read_concat(r, head, body);
    lemma_read_one(r, url_line(one.url));
    let a = read_lines(r, head);
    assert(a.block.len() == 0);
    assert(a.block =~= Seq::<Seq<char>>::empty());
    lemma_read_block(a, body);
    let b = read_lines(a, body);
    assert(a.block + body =~= body);
    lemma_read_one(b, Seq::empty());
    lemma_last_of_lines(one.block);
    assert(read_record(one.day, one.url, body) == one);
}

/// Reading the records of a day adds them.
proof fn lemma_read_day(r: Reading, records: Seq<RecordView>, day: Seq<char>)
    requires
        is_sound(r),
        all_storable(records),
        r.day == day,
    ensures
        ({
            let s = read_lines(r, lines(day_records(records, day)));
            &&& is_sound(s)
            &&& s.day == r.day
            &&& closed_record(s).records == closed_record(r).records + of_day(records, day)
        }),
        is_ended(day_records(records, day)),
        none_bare(lines(day_records(records, day))),
    decreases records.len(),
{
    if records.len() == 0 {
        lemma_no_lines();
        assert(closed_record(r).records + of_day(records, day) =~= closed_record(r).records);
    } else {
        let d = records.drop_last();
        assert forall|i: int| 0 <= i < d.len() implies is_storable(#[trigger] d[i]) by {
            assert(d[i] == records[i]);
        }
        lemma_read_day(r, d, day);
        if records.last().day == day {
            let before = day_records(d, day);
            let one = records.last();
            assert(is_storable(records[records.len() - 1]));
            lemma_record_lines(one);
            lemma_lines_concat(before, record_text(one));
            lemma_read_concat(r, lines(before), lines(record_text(one)));
            lemma_read_record(read_lines(r, lines(before)), one);
            assert((closed_record(r).records + of_day(d, day)).push(one)
                =~= closed_record(r).records + of_day(records, day));
            lemma_none_bare_concat(lines(before), lines(record_text(one)));
        }
    }
}

proof fn lemma_no_lines()
    ensures
        lines(Seq::empty()) == Seq::<Seq<char>>::empty(),
{
    let p = crate::text::split_on(Seq::<char>::empty(), '\n');
    assert(p.last().len() == 0);
    assert(lines(Seq::empty()) =~= Seq::<Seq<char>>::empty());
}

proof fn lemma_none_bare_concat(a: Seq<Seq<char>>, b: Seq<Seq<char>>)
    requires
        none_bare(a),
        none_bare(b),
    ensures
        none_bare(a + b),
{
    assert forall|i: int| 0 <= i < (a + b).len() implies #[trigger] (a + b)[i] != "=== ==="@ by {
        if i < a.len() {
            assert((a + b)[i] == a[i]);
        } else {
            assert((a + b)[i] == b[i - a.len()]);
        }
    }
}

/// The lines of the heading of a day: an empty one and the heading.
proof fn lemma_heading_lines(day: Seq<char>)
    requires
        !day.contains('\n'),
    ensures
        ({
            let head = "\n=== "@ + day + " ===\n"@;
            &&& lines(head) == seq![Seq::empty(), day_line(day)]
            &&& head.last() == '\n'
            &&& none_bare(lines(head))
        }),
{
    reveal_strlit("\n=== ");
    reveal_strlit(" ===\n");
    reveal_strlit("=== ");
    reveal_strlit(" ===");
    reveal_strlit("=== ===");
    let head = "\n=== "@ + day + " ===\n"@;
    let l = day_line(day);
    assert(head =~= seq!['\n'] + l.push('\n'));
    assert forall|i: int| 0 <= i < l.len() implies l[i] != '\n' by {
        if 4 <= i && i < 4 + day.len() {
            assert(day[i - 4] != '\n');
        }
    }
    lemma_one_line(l);
    lemma_day_line(day);
    lemma_empty_line();
    lemma_lines_concat(seq!['\n'], l.push('\n'));
    assert(lines(head) =~= seq![Seq::empty(), l]);
}

/// Reading the heading of a day closes the record before it and sets the day.
proof fn lemma_read_heading(r: Reading, day: Seq<char>)
    requires
        is_sound(r),
        !day.contains('\n'),
    ensures
        ({
            let s = read_lines(r, lines("\n=== "@ + day + " ===\n"@));
            &&& is_sound(s)
            &&& s.day == day
            &&& closed_record(s).records == closed_record(r).records
        }),
{
    lemma_heading_lines(day);
    lemma_day_line(day);
    lemma_empty_line();
    let two = seq![Seq::<char>::empty(), day_line(day)];
    assert(two.drop_last() =~= seq![Seq::<char>::empty()]);
    lemma_read_one(r, Seq::empty());
    assert(read_lines(r, two) == read_line(r, day_line(day)));
}

/// Reading a section adds the records of its day.
proof fn lemma_read_section(r: Reading, records: Seq<RecordView>, day: Seq<char>)
    requires
        is_sound(r),
        all_storable(records),
        !day.contains('\n'),
    ensures
        ({
            let s = read_lines(r, lines(section(records, day)));
            &&& is_sound(s)
            &&& closed_record(s).records == closed_record(r).records + of_day(records, day)
        }),
        is_ended(section(records, day)),
        none_bare(lines(section(records, day))),
{
    let head = "\n=== "@ + day + " ===\n"@;
    lemma_heading_lines(day);
    lemma_read_heading(r, day);
    lemma_read_day(read_lines(r, lines(head)), records, day);
    lemma_lines_concat(head, day_records(records, day));
    lemma_read_concat(r, lines(head), lines(day_records(records, day)));
    lemma_none_bare_concat(lines(head), lines(day_records(records, day)));
}

/// Reading the sections adds the records of their days.
proof fn lemma_read_sections(r: Reading, records: Seq<RecordView>, days: Seq<Seq<char>>)
    requires
        is_sound(r),
        all_storable(records),
        forall|i: int| 0 <= i < days.len() ==> !(#[trigger] days[i]).contains('\n'),
    ensures
        ({
            let s = read_lines(r, lines(sections(records, days)));
            &&& is_sound(s)
            &&& closed_record(s).records == closed_record(r).records + by_day(records, days)
        }),
        is_ended(sections(records, days)),
        none_bare(lines(sections(records, days))),
    decreases days.len(),
{
    if days.len() == 0 {
        lemma_no_lines();
        assert(closed_record(r).records + by_day(records, days) =~= closed_record(r).records);
    } else {
        let d = days.drop_last();
        assert forall|i: int| 0 <= i < d.len() implies !(#[trigger] d[i]).contains('\n') by {
            assert(d[i] == days[i]);
        }
        lemma_read_sections(r, records, d);
        let before = sections(records, d);
        let day = days.last();
        assert(!days[days.len() - 1].contains('\n'));
        lemma_read_section(read_lines(r, lines(before)), records, day);
        lemma_lines_concat(before, section(records, day));
        lemma_read_concat(r, lines(before), lines(section(records, day)));
        lemma_none_bare_concat(lines(before), lines(section(records, day)));
        assert(closed_record(r).records + by_day(records, d) + of_day(records, day)
            =~= closed_record(r).records + by_day(records, days));
    }
}

/// The line of the totals is one line, which no record is read from.
proof fn lemma_totals_line(picks: int, won: int, lost: int, profit: Seq<char>)
    requires
        picks >= 0,
        won >= 0,
        lost >= 0,
        !profit.contains('\n'),
    ensures
        ({
            let t = totals_line(picks, won, lost, profit);
            &&& read_lines(start_reading(), lines(t)) == start_reading()
            &&& is_ended(t)
            &&& none_bare(lines(t))
        }),
{
    reveal_strlit("Total PICKs: ");
    reveal_strlit(" | Won: ");
    reveal_strlit(" | Lost: ");
    reveal_strlit(" | Profit: ");
    reveal_strlit("\n");
    let t = totals_line(picks, won, lost, profit);
    let a = "Total PICKs: "@ + show_nat(picks);
    let b = a + " | Won: "@ + show_nat(won);
    let c = b + " | Lost: "@ + show_nat(lost);
    let l = c + " | Profit: "@ + profit;
    assert(t =~= l.push('\n'));
    lemma_no_feed(show_nat(picks));
    lemma_show_nat(picks);
    lemma_show_nat(won);
    lemma_show_nat(lost);
    lemma_no_feed(show_nat(won));
    lemma_no_feed(show_nat(lost));
    lemma_no_feed_concat("Total PICKs: "@, show_nat(picks));
    lemma_no_feed_concat(a, " | Won: "@);
    lemma_no_feed_concat(a + " | Won: "@, show_nat(won));
    lemma_no_feed_concat(b, " | Lost: "@);
    lemma_no_feed_concat(b + " | Lost: "@, show_nat(lost));
    lemma_no_feed_concat(c, " | Profit: "@);
    lemma_no_feed_concat(c + " | Profit: "@, profit);
    lemma_one_line(l);
    let line = strip_cr(l);
    assert(l[0] == 'T');
    assert(line[0] == 'T');
    lemma_read_one(start_reading(), line);
    lemma_starts_with_letter(line);
    lemma_bare_is_day_line();
}

proof fn lemma_starts_with_letter(line: Seq<char>)
    requires
        line.len() > 0,
        line[0] == 'T',
    ensures
        !is_day_line(line),
        !is_url_line(line),
{
    reveal_strlit("=== ");
    if starts_with(line, "=== "@) {
        assert(line.subrange(0, 4)[0] == line[0]);
    }
    if starts_with(line, seq!['[']) {
        assert(line.subrange(0, 1)[0] == line[0]);
    }
}

proof fn lemma_no_feed(s: Seq<char>)
    ensures
        only_digits(s) ==> !s.contains('\n'),
{
    if only_digits(s) && s.contains('\n') {
        let i = choose|i: int| 0 <= i < s.len() && s[i] == '\n';
        assert(crate::numbers::is_digit(s[i]));
    }
}

proof fn lemma_no_feed_concat(a: Seq<char>, b: Seq<char>)
    requires
        !a.contains('\n'),
        !b.contains('\n'),
    ensures
        !(a + b).contains('\n'),
{
    if (a + b).contains('\n') {
        let i = choose|i: int| 0 <= i < (a + b).len() && (a + b)[i] == '\n';
        if i < a.len() {
            assert(a[i] == '\n');
        } else {
            assert(b[i - a.len()] == '\n');
        }
    }
}

/// What is written of a day that a record has ends with a record; before it stands what is written
/// of the records up to there.
proof fn lemma_day_tail(records: Seq<RecordView>, day: Seq<char>) -> (d: Seq<RecordView>)
    requires
        all_storable(records),
        exists|i: int| 0 <= i < records.len() && (#[trigger] records[i]).day == day,
    ensures
        all_storable(d),
        of_day(records, day).len() > 0,
        of_day(d, day) == of_day(records, day).drop_last(),
        day_records(records, day) == day_records(d, day) + record_text(
            of_day(records, day).last(),
        ),
        is_storable(of_day(records, day).last()),
        of_day(records, day).last().day == day,
    decreases records.len(),
{
    let d = records.drop_last();
    assert forall|i: int| 0 <= i < d.len() implies is_storable(#[trigger] d[i]) by {
        assert(d[i] == records[i]);
    }
    if records.last().day == day {
        assert(is_storable(records[records.len() - 1]));
        assert(of_day(records, day).drop_last() =~= of_day(d, day));
        d
    } else {
        let i = choose|i: int| 0 <= i < records.len() && (#[trigger] records[i]).day == day;
        assert(d[i] == records[i]);
        lemma_day_tail(d, day)
    }
}

proof fn lemma_total_not_negative(records: Seq<RecordView>)
    requires
        all_storable(records),
    ensures
        total_picks(records) >= 0,
    decreases records.len(),
{
    if records.len() > 0 {
        let d = records.drop_last();
        assert forall|i: int| 0 <= i < d.len() implies is_storable(#[trigger] d[i]) by {
            assert(d[i] == records[i]);
        }
        lemma_total_not_negative(d);
        assert(is_storable(records[records.len() - 1]));
        lemma_count_not_negative(lines(records.last().block));
    }
}

proof fn lemma_count_not_negative(ls: Seq<Seq<char>>)
    ensures
        count_picks(ls) >= 0,
    decreases ls.len(),
{
    if ls.len() > 0 {
        lemma_count_not_negative(ls.drop_last());
    }
}

/// Reading a text, the heading of a day and the records of that day.
proof fn lemma_read_front(a: Seq<char>, d: Seq<RecordView>, day: Seq<char>)
    requires
        is_ended(a),
        none_bare(lines(a)),
        is_sound(read_lines(start_reading(), lines(a))),
        all_storable(d),
        !day.contains('\n'),
    ensures
        ({
            let front = a + ("\n=== "@ + day + " ===\n"@) + day_records(d, day);
            let r = read_lines(start_reading(), lines(front));
            &&& is_ended(front)
            &&& none_bare(lines(front))
            &&& is_sound(r)
            &&& r.day == day
            &&& closed_record(r).records == closed_record(
                read_lines(start_reading(), lines(a)),
            ).records + of_day(d, day)
        }),
{
    let start = start_reading();
    let head = "\n=== "@ + day + " ===\n"@;
    let b = a + head;
    let ra = read_lines(start, lines(a));
    lemma_heading_lines(day);
    lemma_read_heading(ra, day);
    lemma_lines_concat(a, head);
    lemma_read_concat(start, lines(a), lines(head));
    lemma_none_bare_concat(lines(a), lines(head));
    let rb = read_lines(start, lines(b));
    lemma_read_day(rb, d, day);
    lemma_lines_concat(b, day_records(d, day));
    lemma_read_concat(start, lines(b), lines(day_records(d, day)));
    lemma_none_bare_concat(lines(b), lines(day_records(d, day)));
}

/// The picks file as what stands before its last record, and that record.
proof fn lemma_file_tail(
    records: Seq<RecordView>,
    won: int,
    lost: int,
    profit: Seq<char>,
) -> (front: Seq<char>)
    requires
        is_saveable(records),
        won >= 0,
        lost >= 0,
        !profit.contains('\n'),
    ensures
        ({
            let all = in_file_order(records);
            let r = read_lines(start_reading(), lines(front));
            &&& all.len() > 0
            &&& is_storable(all.last())
            &&& picks_file(records, won, lost, profit) == trim_end(
                front + record_text(all.last()),
            )
            &&& is_ended(front)
            &&& none_bare(lines(front))
            &&& is_sound(r)
            &&& r.day == all.last().day
            &&& closed_record(r).records == all.drop_last()
        }),
{
    let order = day_order(records);
    let totals = totals_line(total_picks(records), won, lost, profit);
    law_days_latest_first(records);
    assert forall|i: int| 0 <= i < order.len() implies !(#[trigger] order[i]).contains('\n') by {
        assert(order.contains(order[i]));
        let k = choose|k: int| 0 <= k < records.len() && (#[trigger] records[k]).day == order[i];
        assert(is_storable(records[k]));
    }
    lemma_total_not_negative(records);
    lemma_totals_line(total_picks(records), won, lost, profit);
    assert(order.contains(records[0].day));
    let day = order.last();
    assert(order.contains(order[order.len() - 1]));
    assert(!order[order.len() - 1].contains('\n'));
    let d = lemma_day_tail(records, day);
    let one = of_day(records, day).last();
    let shorter = order.drop_last();
    assert forall|i: int| 0 <= i < shorter.len() implies !(#[trigger] shorter[i]).contains(
        '\n',
    ) by {
        assert(shorter[i] == order[i]);
    }
    let a = totals + sections(records, shorter);
    let front = a + ("\n=== "@ + day + " ===\n"@) + day_records(d, day);
    let start = start_reading();
    lemma_read_sections(start, records, shorter);
    lemma_lines_concat(totals, sections(records, shorter));
    lemma_read_concat(start, lines(totals), lines(sections(records, shorter)));
    lemma_none_bare_concat(lines(totals), lines(sections(records, shorter)));
    lemma_read_front(a, d, day);
    let all = by_day(records, order);
    assert(all.last() == one);
    assert(closed_record(start).records + by_day(records, shorter) =~= by_day(records, shorter));
    assert(by_day(records, shorter) + of_day(records, day).drop_last() =~= all.drop_last());
    assert(totals + sections(records, order) =~= front + record_text(one));
    front
}

/// White space at the end of the last record makes no difference to the file.
proof fn lemma_trimmed_record(front: Seq<char>, r: RecordView)
    ensures
        trim_end(front + record_text(r)) == trim_end(front + record_text(trimmed_record(r))),
{
    reveal_strlit("\n\n");
    let head = front + ("["@ + r.url + "]\n"@);
    let kept = trim_end(r.block);
    let n = kept.len() as int;
    lemma_trim_end(r.block);
    let rest = r.block.skip(n);
    let feeds = seq!['\n', '\n'];
    assert(front + record_text(r) =~= (head + kept) + (rest + feeds));
    assert(front + record_text(trimmed_record(r)) =~= (head + kept) + feeds);
    assert(all_space(feeds));
    assert forall|i: int| 0 <= i < (rest + feeds).len() implies is_space(
        #[trigger] (rest + feeds)[i],
    ) by {
        if i < rest.len() {
            assert(is_space(rest[i]));
        }
    }
    lemma_trim_end_space(head + kept, rest + feeds);
    lemma_trim_end_space(head + kept, feeds);
}

/// What is written to the picks file reads back: the records come out as they went in, one day
/// after the other, the latest first. White space at the end of the file is lost.
pub proof fn law_file_reads_back(
    records: Seq<RecordView>,
    won: int,
    lost: int,
    profit: Seq<char>,
)
    requires
        is_saveable(records),
        won >= 0,
        lost >= 0,
        !profit.contains('\n'),
    ensures
        headings_readable(picks_file(records, won, lost, profit)),
        loaded(picks_file(records, won, lost, profit)) == read_back(records),
        !is_space(in_file_order(records).last().block.last()) ==> read_back(records)
            == in_file_order(records),
{
    let all = in_file_order(records);
    let start = start_reading();
    let front = lemma_file_tail(records, won, lost, profit);
    let last = all.last();
    let one = trimmed_record(last);
    let text = picks_file(records, won, lost, profit);
    lemma_trimmed_record(front, last);
    lemma_trim_end(last.block);
    assert(is_storable(one));
    lemma_trimmed_file(front, one);
    lemma_record_lines(one);
    lemma_read_record(read_lines(start, lines(front)), one);
    lemma_lines_concat(front, record_text(one));
    lemma_read_concat(start, lines(front), lines(record_text(one)));
    lemma_none_bare_concat(lines(front), lines(record_text(one)));
    let whole = lines(front + record_text(one));
    lemma_read_concat(start, lines(text), seq![Seq::empty()]);
    lemma_read_one(read_lines(start, lines(text)), Seq::empty());
    lemma_empty_line();
    assert forall|i: int| 0 <= i < lines(text).len() implies #[trigger] lines(text)[i]
        != "=== ==="@ by {
        assert(whole[i] == lines(text)[i]);
    }
    if !is_space(last.block.last()) {
        lemma_not_blank(last.block);
        assert(one == last);
        assert(all.drop_last().push(last) =~= all);
    }
}

/// Trimming a text that ends with a record takes away its last, empty line.
proof fn lemma_trimmed_file(front: Seq<char>, one: RecordView)
    requires
        is_storable(one),
        !is_space(one.block.last()),
        is_ended(front),
    ensures
        lines(front + record_text(one)) == lines(trim_end(front + record_text(one))) + seq![
            Seq::empty(),
        ],
{
    let t = record_text(one);
    lemma_record_lines(one);
    let kept = t.drop_last().drop_last();
    let feeds = seq!['\n', '\n'];
    assert(t =~= kept + feeds);
    assert(front + t =~= (front + kept) + feeds);
    assert(all_space(feeds));
    lemma_trim_end_space(front + kept, feeds);
    lemma_not_blank(front + kept);
    lemma_lines_concat(front, t);
    lemma_lines_concat(front, kept);
    assert(lines(front) + (seq![url_line(one.url)] + lines(one.block) + seq![Seq::empty()])
        =~= lines(front) + (seq![url_line(one.url)] + lines(one.block)) + seq![Seq::empty()]);
}

/// The records in the order of the file make the same file.
proof fn lemma_grouped_file(records: Seq<RecordView>, won: int, lost: int, profit: Seq<char>)
    ensures
        day_order(in_file_order(records)) == day_order(records),
        picks_file(in_file_order(records), won, lost, profit) == picks_file(
            records,
            won,
            lost,
            profit,
        ),
{
    law_days_latest_first(records);
    let order = day_order(records);
    let grouped = by_day(records, order);
    assert forall|i: int| 0 <= i < order.len() implies of_day(records, #[trigger] order[i]).len()
        > 0 by {
        assert(order.contains(order[i]));
        let k = choose|k: int| 0 <= k < records.len() && (#[trigger] records[k]).day == order[i];
        lemma_of_day_some(records, k);
    }
    lemma_distinct_days_grouped(records, order);
    lemma_sorted_days_stay(order);
    assert(day_order(grouped) == order);
    assert forall|i: int| 0 <= i < order.len() implies order.contains(#[trigger] order[i]) by {}
    lemma_sections_grouped(records, order, order);
    assert forall|i: int| 0 <= i < records.len() implies order.contains(
        (#[trigger] records[i]).day,
    ) by {}
    lemma_total_grouped(records, order);
}

/// The last record does not show in the sections of other days.
proof fn lemma_other_sections(
    records: Seq<RecordView>,
    x: RecordView,
    y: RecordView,
    days: Seq<Seq<char>>,
)
    requires
        x.day == y.day,
        !days.contains(x.day),
    ensures
        sections(records.push(x), days) == sections(records.push(y), days),
    decreases days.len(),
{
    if days.len() > 0 {
        let d = days.drop_last();
        assert(days[days.len() - 1] != x.day);
        assert forall|i: int| 0 <= i < d.len() implies d[i] != x.day by {
            assert(d[i] == days[i]);
        }
        lemma_other_sections(records, x, y, d);
        assert(records.push(x).drop_last() =~= records);
        assert(records.push(y).drop_last() =~= records);
    }
}

/// Trimming a block trims its last line.
pub(crate) proof fn lemma_trimmed_lines(block: Seq<char>)
    requires
        is_block(block),
    ensures
        lines(block).len() > 0,
        lines(trim_end(block)) == lines(block).drop_last().push(trim_end(lines(block).last())),
{
    let n = lemma_last_line_start(block);
    let before = block.take(n);
    let q = block.skip(n);
    assert(block =~= before + q);
    assert(q.len() > 0);
    lemma_last_line(q);
    lemma_lines_concat(before, q);
    let ls = lines(block);
    assert(ls =~= lines(before).push(q));
    assert(is_record_line(ls[ls.len() - 1]));
    let kept = trim_end(q);
    lemma_trim_end(q);
    assert(kept.len() > 0) by {
        if kept.len() == 0 {
            assert(q.skip(0) =~= q);
            lemma_trim_start_space(q);
            assert(trim_start(q) =~= Seq::<char>::empty());
        }
    }
    lemma_trim_end_append(before, q);
    assert forall|i: int| 0 <= i < kept.len() implies kept[i] != '\n' by {
        assert(q[i] != '\n');
    }
    lemma_last_line(kept);
    lemma_lines_concat(before, kept);
    assert(lines(trim_end(block)) =~= lines(before).push(kept));
    assert(ls.drop_last() =~= lines(before));
}

/// Trimming a line does not matter to whether it is a pick.
pub(crate) proof fn lemma_trimmed_pick(line: Seq<char>)
    ensures
        contains(trim_end(line), "PICK"@) == contains(line, "PICK"@),
{
    let kept = trim_end(line);
    lemma_trim_end(line);
    let rest = line.skip(kept.len() as int);
    assert(line =~= kept + rest);
    reveal_strlit("PICK");
    lemma_contains_space_after(kept, rest, "PICK"@);
}

/// White space at the end of a block does not matter to the number of its picks.
pub(crate) proof fn lemma_trimmed_picks(block: Seq<char>)
    requires
        is_block(block),
    ensures
        count_picks(lines(trim_end(block))) == count_picks(lines(block)),
{
    lemma_trimmed_lines(block);
    let ls = lines(block);
    let now = lines(trim_end(block));
    lemma_trimmed_pick(ls.last());
    assert(now.drop_last() =~= ls.drop_last());
}

/// White space at the end of the last record of the last day makes no difference to the file.
proof fn lemma_last_trimmed(
    rest: Seq<RecordView>,
    one: RecordView,
    won: int,
    lost: int,
    profit: Seq<char>,
)
    requires
        trimmed_record(one).picks == one.picks,
        day_order(rest.push(one)).len() > 0,
        day_order(rest.push(one)).last() == one.day,
        day_order(rest.push(one)).no_duplicates(),
    ensures
        picks_file(rest.push(trimmed_record(one)), won, lost, profit) == picks_file(
            rest.push(one),
            won,
            lost,
            profit,
        ),
{
    let other = trimmed_record(one);
    let all = rest.push(one);
    let again = rest.push(other);
    assert(all.drop_last() =~= rest);
    assert(again.drop_last() =~= rest);
    assert(total_picks(again) == total_picks(all));
    assert(distinct_days(again) == distinct_days(all));
    let order = day_order(all);
    let day = one.day;
    let shorter = order.drop_last();
    assert(!shorter.contains(day)) by {
        if shorter.contains(day) {
            let i = shorter.index_of(day);
            assert(order[i] == order[order.len() - 1]);
        }
    }
    lemma_other_sections(rest, one, other, shorter);
    let totals = totals_line(total_picks(all), won, lost, profit);
    let head = totals + sections(all, shorter) + ("\n=== "@ + day + " ===\n"@) + day_records(
        rest,
        day,
    );
    assert(day_records(all, day) == day_records(rest, day) + record_text(one));
    assert(day_records(again, day) == day_records(rest, day) + record_text(other));
    assert(totals + sections(all, order) =~= head + record_text(one));
    assert(totals + sections(again, order) =~= head + record_text(other));
    lemma_trimmed_record(head, one);
}

/// The last record in the file is of the last day.
proof fn lemma_last_in_file(records: Seq<RecordView>)
    requires
        records.len() > 0,
    ensures
        day_order(records).len() > 0,
        in_file_order(records).len() > 0,
        in_file_order(records).last().day == day_order(records).last(),
        exists|i: int| 0 <= i < records.len() && records[i] == in_file_order(records).last(),
{
    broadcast use vstd::seq_lib::group_to_multiset_ensures;

    law_days_latest_first(records);
    let order = day_order(records);
    assert(order.contains(records[0].day));
    let day = order.last();
    assert(order.contains(order[order.len() - 1]));
    let k = choose|k: int| 0 <= k < records.len() && (#[trigger] records[k]).day == day;
    lemma_of_day_some(records, k);
    lemma_of_day_twice(records, day, day);
    let own = of_day(records, day);
    let all = in_file_order(records);
    let one = all.last();
    assert(one == own[own.len() - 1]);
    law_grouping_keeps_records(records);
    assert(all[all.len() - 1] == one);
    assert(all.contains(one));
    assert(records.to_multiset().count(one) > 0);
    assert(records.contains(one));
}

/// Writing again what was read from a picks file, with the same totals, gives the same file.
pub proof fn law_rewriting_keeps_the_file(
    records: Seq<RecordView>,
    won: int,
    lost: int,
    profit: Seq<char>,
)
    requires
        is_saveable(records),
        won >= 0,
        lost >= 0,
        !profit.contains('\n'),
    ensures
        ({
            let file = picks_file(records, won, lost, profit);
            picks_file(loaded(file), won, lost, profit) == file
        }),
{
    law_file_reads_back(records, won, lost, profit);
    lemma_grouped_file(records, won, lost, profit);
    law_days_latest_first(records);
    lemma_last_in_file(records);
    let all = in_file_order(records);
    let one = all.last();
    let i = choose|i: int| 0 <= i < records.len() && records[i] == one;
    assert(is_storable(records[i]));
    lemma_trimmed_picks(one.block);
    assert(all.drop_last().push(one) =~= all);
    lemma_last_trimmed(all.drop_last(), one, won, lost, profit);
}

/// What has been read is fit to be written again.
spec fn is_good_reading(r: Reading) -> bool {
    &&& all_storable(r.records)
    &&& !r.day.contains('\n')
    &&& !r.url.contains('\n')
    &&& forall|i: int|
        0 <= i < r.block.len() ==> is_record_line(#[trigger] r.block[i]) && !r.block[i].contains(
            '\n',
        ) && no_cr_end(r.block[i])
}

proof fn lemma_good_close(r: Reading)
    requires
        is_good_reading(r),
    ensures
        is_good_reading(closed_record(r)),
{
    let now = closed_record(r);
    if r.url.len() > 0 && r.block.len() > 0 {
        let one = read_record(r.day, r.url, r.block);
        let last = r.block[r.block.len() - 1];
        assert(is_record_line(last));
        assert(last.len() > 0) by {
            if last.len() == 0 {
                assert(last =~= Seq::<char>::empty());
                lemma_empty_line();
            }
        }
        lemma_joined_lines(r.block);
        assert(last.last() != '\n') by {
            assert(last[last.len() - 1] == last.last());
        }
        assert(one.block.len() > 0 && one.block.last() == last.last());
        assert(is_storable(one));
        assert forall|i: int| 0 <= i < now.records.len() implies is_storable(
            #[trigger] now.records[i],
        ) by {
            if i < r.records.len() {
                assert(now.records[i] == r.records[i]);
            }
        }
    }
}

proof fn lemma_good_line(r: Reading, line: Seq<char>)
    requires
        is_good_reading(r),
        !line.contains('\n'),
        is_record_line(line) ==> no_cr_end(line),
        line != "=== ==="@,
    ensures
        is_good_reading(read_line(r, line)),
{
    lemma_good_close(r);
    let now = read_line(r, line);
    if is_day_line(line) {
        lemma_day_line_len(line);
        assert forall|i: int| 0 <= i < now.day.len() implies now.day[i] != '\n' by {
            assert(line[i + 4] != '\n');
        }
    } else if is_url_line(line) {
        lemma_url_line_len(line);
        assert forall|i: int| 0 <= i < now.url.len() implies now.url[i] != '\n' by {
            assert(line[i + 1] != '\n');
        }
    }
}

proof fn lemma_url_line_len(line: Seq<char>)
    requires
        is_url_line(line),
    ensures
        line.len() >= 2,
{
    assert(line.subrange(0, 1)[0] == line[0]);
    assert(line.subrange(line.len() - 1, line.len() as int)[0] == line[line.len() - 1]);
}

proof fn lemma_good_lines(r: Reading, ls: Seq<Seq<char>>)
    requires
        is_good_reading(r),
        forall|i: int|
            0 <= i < ls.len() ==> !(#[trigger] ls[i]).contains('\n') && (is_record_line(ls[i])
                ==> no_cr_end(ls[i])) && ls[i] != "=== ==="@,
    ensures
        is_good_reading(read_lines(r, ls)),
    decreases ls.len(),
{
    if ls.len() > 0 {
        let d = ls.drop_last();
        assert forall|i: int| 0 <= i < d.len() implies !(#[trigger] d[i]).contains('\n')
            && (is_record_line(d[i]) ==> no_cr_end(d[i])) && d[i] != "=== ==="@ by {
            assert(d[i] == ls[i]);
        }
        lemma_good_lines(r, d);
        assert(!ls[ls.len() - 1].contains('\n'));
        lemma_good_line(read_lines(r, d), ls.last());
    }
}

/// Whatever records are read from a picks file can be kept in it again. A file is left out where a
/// line of a record still ends in a carriage return once it is read.
pub proof fn law_loaded_records_are_storable(content: Seq<char>)
    requires
        headings_readable(content),
        forall|i: int|
            0 <= i < lines(content).len() && is_record_line(#[trigger] lines(content)[i])
                ==> no_cr_end(lines(content)[i]),
    ensures
        all_storable(loaded(content)),
{
    let ls = lines(content);
    assert forall|i: int| 0 <= i < ls.len() implies !(#[trigger] ls[i]).contains('\n')
        && (is_record_line(ls[i]) ==> no_cr_end(ls[i])) && ls[i] != "=== ==="@ by {
        lemma_lines_hold_no_feed(content, i);
    }
    lemma_good_lines(start_reading(), ls);
    lemma_good_close(read_lines(start_reading(), ls));
}

} // verus!
