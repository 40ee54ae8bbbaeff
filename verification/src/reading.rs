//! What the records of a picks file are, told by its lines: one for each address that lines of a
//! game follow.

use vstd::prelude::*;

use crate::ledger::{
    closed_record, is_day_line, is_url_line, loaded, read_line, read_lines, read_record,
    start_reading, Reading,
};
use crate::records::{count_picks, RecordView};
use crate::text::{join, lines, split_on, strip_cr, trim, trim_end, trim_start};
use crate::text_facts::{
    lemma_lines_hold_no_feed, lemma_split_joined, lemma_trim_space_after,
};

verus! {

/// A line that ends the lines of a game: the heading of a day or an address.
pub open spec fn is_mark(line: Seq<char>) -> bool {
    is_day_line(line) || is_url_line(line)
}

/// The day of the last heading before position `p`; nothing where there is none.
pub open spec fn last_day(ls: Seq<Seq<char>>, p: int) -> Seq<char>
    decreases p,
{
    if p <= 0 {
        Seq::empty()
    } else if is_day_line(ls[p - 1]) {
        ls[p - 1].subrange(4, ls[p - 1].len() - 4)
    } else {
        last_day(ls, p - 1)
    }
}

/// The lines from position `p` to the next heading or address that are not blank.
pub open spec fn body(ls: Seq<Seq<char>>, p: int) -> Seq<Seq<char>>
    decreases ls.len() - p,
{
    if p >= ls.len() || is_mark(ls[p]) {
        Seq::empty()
    } else if trim(ls[p]).len() > 0 {
        seq![ls[p]] + body(ls, p + 1)
    } else {
        body(ls, p + 1)
    }
}

/// The address in a line.
pub open spec fn url_in(line: Seq<char>) -> Seq<char> {
    line.subrange(1, line.len() - 1)
}

/// A record starts at position `p`: an address that is not empty, with lines after it.
pub open spec fn is_record_start(ls: Seq<Seq<char>>, p: int) -> bool {
    is_url_line(ls[p]) && url_in(ls[p]).len() > 0 && body(ls, p + 1).len() > 0
}

/// The record that starts at position `p`: its day is that of the last heading before it.
pub open spec fn record_at(ls: Seq<Seq<char>>, p: int) -> RecordView {
    read_record(last_day(ls, p), url_in(ls[p]), body(ls, p + 1))
}

/// The records that start before position `n`, in order.
pub open spec fn records_before(ls: Seq<Seq<char>>, n: int) -> Seq<RecordView>
    decreases n,
{
    if n <= 0 {
        Seq::empty()
    } else if is_record_start(ls, n - 1) {
        records_before(ls, n - 1).push(record_at(ls, n - 1))
    } else {
        records_before(ls, n - 1)
    }
}

/// No line is both a heading and an address.
proof fn lemma_marks_differ(line: Seq<char>)
    ensures
        !(is_day_line(line) && is_url_line(line)),
{
    reveal_strlit("=== ");
    if is_day_line(line) && is_url_line(line) {
        assert(line.subrange(0, 4)[0] == line[0]);
        assert(line.subrange(0, 1)[0] == line[0]);
    }
}

/// A further line does not change the lines before a mark.
proof fn lemma_body_stable(ls: Seq<Seq<char>>, x: Seq<char>, p: int, u: int)
    requires
        0 <= p <= u <= ls.len(),
        u < ls.len() ==> is_mark(ls[u]),
        u == ls.len() ==> is_mark(x),
    ensures
        body(ls.push(x), p) == body(ls, p),
    decreases u - p,
{
    if p < u {
        assert(ls.push(x)[p] == ls[p]);
        lemma_body_stable(ls, x, p + 1, u);
    } else if p < ls.len() {
        assert(ls.push(x)[p] == ls[p]);
    }
}

/// A further line that is no mark is added to the lines after the last mark.
proof fn lemma_body_grows(ls: Seq<Seq<char>>, x: Seq<char>, p: int)
    requires
        0 <= p <= ls.len(),
        forall|i: int| p <= i < ls.len() ==> !is_mark(#[trigger] ls[i]),
        !is_mark(x),
    ensures
        body(ls.push(x), p) == if trim(x).len() > 0 {
            body(ls, p).push(x)
        } else {
            body(ls, p)
        },
    decreases ls.len() - p,
{
    let now = ls.push(x);
    if p < ls.len() {
        assert(now[p] == ls[p]);
        assert(!is_mark(ls[p]));
        lemma_body_grows(ls, x, p + 1);
        if trim(x).len() > 0 && trim(ls[p]).len() > 0 {
            assert(seq![ls[p]] + body(ls, p + 1).push(x) =~= (seq![ls[p]] + body(ls, p + 1)).push(
                x,
            ));
        }
    } else {
        assert(body(now, p + 1) =~= Seq::<Seq<char>>::empty());
        assert(body(ls, p) =~= Seq::<Seq<char>>::empty());
        assert(seq![x] + Seq::<Seq<char>>::empty() =~= Seq::<Seq<char>>::empty().push(x));
    }
}

proof fn lemma_last_day_stable(ls: Seq<Seq<char>>, x: Seq<char>, p: int)
    requires
        p <= ls.len(),
    ensures
        last_day(ls.push(x), p) == last_day(ls, p),
    decreases p,
{
    if p > 0 {
        assert(ls.push(x)[p - 1] == ls[p - 1]);
        lemma_last_day_stable(ls, x, p - 1);
    }
}

/// A further line does not change the records before a mark.
proof fn lemma_records_stable(ls: Seq<Seq<char>>, x: Seq<char>, n: int, u: int)
    requires
        n <= u <= ls.len(),
        0 <= u < ls.len() ==> is_mark(ls[u]),
        u == ls.len() ==> is_mark(x),
    ensures
        records_before(ls.push(x), n) == records_before(ls, n),
    decreases n,
{
    if n > 0 {
        lemma_records_stable(ls, x, n - 1, u);
        lemma_body_stable(ls, x, n, u);
        lemma_last_day_stable(ls, x, n - 1);
        assert(ls.push(x)[n - 1] == ls[n - 1]);
    }
}

/// After the last mark no record starts.
proof fn lemma_records_end(ls: Seq<Seq<char>>, u: int, n: int)
    requires
        u <= n <= ls.len(),
        forall|i: int| 0 <= i && u <= i < n ==> !is_mark(#[trigger] ls[i]),
    ensures
        records_before(ls, n) == records_before(ls, u),
    decreases n - u,
{
    if u < n {
        lemma_records_end(ls, u, n - 1);
        if n > 0 {
            assert(!is_mark(ls[n - 1]));
        }
    }
}

/// What has been read after the lines `ls`, the last mark of which stands at `u`.
spec fn is_reading_of(r: Reading, ls: Seq<Seq<char>>, u: int) -> bool {
    &&& -1 <= u < ls.len()
    &&& u >= 0 ==> is_mark(ls[u])
    &&& forall|i: int| u < i < ls.len() ==> !is_mark(#[trigger] ls[i])
    &&& r.day == last_day(ls, ls.len() as int)
    &&& r.records == records_before(ls, u)
    &&& r.url == if u >= 0 && is_url_line(ls[u]) {
        url_in(ls[u])
    } else {
        Seq::empty()
    }
    &&& r.block == if r.url.len() > 0 {
        body(ls, u + 1)
    } else {
        Seq::empty()
    }
}

proof fn lemma_day_at_mark(ls: Seq<Seq<char>>, u: int, n: int)
    requires
        0 <= u < n <= ls.len(),
        !is_day_line(ls[u]),
        forall|i: int| u < i < n ==> !is_mark(#[trigger] ls[i]),
    ensures
        last_day(ls, n) == last_day(ls, u),
    decreases n - u,
{
    if n > u + 1 {
        assert(!is_mark(ls[n - 1]));
        lemma_day_at_mark(ls, u, n - 1);
    } else {
        assert(last_day(ls, n) == last_day(ls, n - 1));
    }
}

/// Closing what has been read gives the records of all the lines.
proof fn lemma_reading_closed(r: Reading, ls: Seq<Seq<char>>, u: int)
    requires
        is_reading_of(r, ls, u),
    ensures
        closed_record(r).records == records_before(ls, ls.len() as int),
        closed_record(r).block.len() == 0,
{
    let n = ls.len() as int;
    lemma_records_end(ls, u + 1, n);
    if u >= 0 {
        lemma_marks_differ(ls[u]);
        if is_url_line(ls[u]) {
            lemma_day_at_mark(ls, u, n);
        }
    } else {
        assert(records_before(ls, 0) =~= records_before(ls, -1));
    }
}

proof fn lemma_reading_step(r: Reading, ls: Seq<Seq<char>>, u: int, x: Seq<char>) -> (v: int)
    requires
        is_reading_of(r, ls, u),
    ensures
        is_reading_of(read_line(r, x), ls.push(x), v),
{
    let now = ls.push(x);
    let n = ls.len() as int;
    let s = read_line(r, x);
    lemma_marks_differ(x);
    lemma_last_day_stable(ls, x, n);
    assert(now[n] == x);
    if is_mark(x) {
        lemma_reading_closed(r, ls, u);
        lemma_records_stable(ls, x, n, n);
        assert(body(now, n + 1) =~= Seq::<Seq<char>>::empty());
        assert(closed_record(r).block =~= Seq::<Seq<char>>::empty());
        n
    } else {
        lemma_records_stable(ls, x, u, u);
        assert forall|i: int| u < i < now.len() implies !is_mark(#[trigger] now[i]) by {
            if i < n {
                assert(now[i] == ls[i]);
            }
        }
        if u >= 0 {
            assert(now[u] == ls[u]);
        }
        lemma_body_grows(ls, x, u + 1);
        u
    }
}

proof fn lemma_reading(ls: Seq<Seq<char>>) -> (u: int)
    ensures
        is_reading_of(read_lines(start_reading(), ls), ls, u),
    decreases ls.len(),
{
    if ls.len() == 0 {
        -1
    } else {
        let d = ls.drop_last();
        let u = lemma_reading(d);
        let v = lemma_reading_step(read_lines(start_reading(), d), d, u, ls.last());
        assert(d.push(ls.last()) =~= ls);
        v
    }
}

/// The records of a picks file are, in order, those of the addresses that lines of a game follow.
/// An address without lines, and lines without an address, give no record.
pub proof fn law_loaded_records_in_order(content: Seq<char>)
    ensures
        loaded(content) == records_before(lines(content), lines(content).len() as int),
{
    let ls = lines(content);
    let u = lemma_reading(ls);
    lemma_reading_closed(read_lines(start_reading(), ls), ls, u);
}

proof fn lemma_record_position(ls: Seq<Seq<char>>, n: int, k: int) -> (p: int)
    requires
        n <= ls.len(),
        0 <= k < records_before(ls, n).len(),
    ensures
        0 <= p < n,
        is_record_start(ls, p),
        records_before(ls, n)[k] == record_at(ls, p),
    decreases n,
{
    let before = records_before(ls, n - 1);
    if k < before.len() {
        lemma_record_position(ls, n - 1, k)
    } else {
        n - 1
    }
}

proof fn lemma_body_lines(ls: Seq<Seq<char>>, p: int, i: int) -> (q: int)
    requires
        0 <= p,
        0 <= i < body(ls, p).len(),
    ensures
        p <= q < ls.len(),
        body(ls, p)[i] == ls[q],
        trim(ls[q]).len() > 0,
    decreases ls.len() - p,
{
    if trim(ls[p]).len() > 0 {
        if i == 0 {
            p
        } else {
            assert(body(ls, p)[i] == body(ls, p + 1)[i - 1]);
            lemma_body_lines(ls, p + 1, i - 1)
        }
    } else {
        lemma_body_lines(ls, p + 1, i)
    }
}

/// A line that is not blank is not blank without the carriage return at its end.
proof fn lemma_strip_not_blank(line: Seq<char>)
    requires
        trim(line).len() > 0,
    ensures
        trim(strip_cr(line)).len() > 0,
{
    if line.len() > 0 && line.last() == '\r' {
        let rest = seq!['\r'];
        assert(line =~= line.drop_last() + rest);
        lemma_trim_space_after(line.drop_last(), rest);
    }
}

/// Lines that are not blank, joined, have no blank line.
proof fn lemma_joined_not_blank(ls: Seq<Seq<char>>)
    requires
        ls.len() > 0,
        forall|i: int|
            0 <= i < ls.len() ==> !(#[trigger] ls[i]).contains('\n') && trim(ls[i]).len() > 0,
    ensures
        join(ls, "\n"@).len() > 0,
        lines(join(ls, "\n"@)).len() == ls.len(),
        forall|i: int|
            0 <= i < ls.len() ==> trim(#[trigger] lines(join(ls, "\n"@))[i]).len() > 0,
{
    let text = join(ls, "\n"@);
    assert forall|i: int| 0 <= i < ls.len() implies !(#[trigger] ls[i]).contains('\n') by {}
    lemma_split_joined(ls);
    assert(trim(ls[ls.len() - 1]).len() > 0);
    assert(ls.last().len() > 0) by {
        if ls.last().len() == 0 {
            assert(trim_start(ls.last()) == ls.last());
            assert(trim_end(ls.last()) == ls.last());
        }
    }
    assert(split_on(text, '\n') == ls);
    assert forall|i: int| 0 <= i < ls.len() implies trim(#[trigger] lines(text)[i]).len() > 0 by {
        assert(trim(ls[i]).len() > 0);
        lemma_strip_not_blank(ls[i]);
        if i < ls.len() - 1 {
            assert(ls.drop_last().map_values(|l: Seq<char>| strip_cr(l))[i] == strip_cr(ls[i]));
        }
    }
}

/// Of each record that is read from a picks file: its address is not empty, it has lines and none
/// of them is blank, its picks are its lines that hold the word PICK, and its day is that of the
/// last heading before its address.
pub proof fn law_loaded_records_are_whole(content: Seq<char>, k: int)
    requires
        0 <= k < loaded(content).len(),
    ensures
        ({
            let r = loaded(content)[k];
            let ls = lines(content);
            &&& r.url.len() > 0
            &&& r.block.len() > 0
            &&& lines(r.block).len() > 0
            &&& forall|i: int|
                0 <= i < lines(r.block).len() ==> trim(#[trigger] lines(r.block)[i]).len() > 0
            &&& r.picks == count_picks(lines(r.block))
            &&& exists|p: int|
                0 <= p < ls.len() && #[trigger] is_record_start(ls, p) && r.url == url_in(ls[p])
                    && r.day == last_day(ls, p) && r.block == join(body(ls, p + 1), "\n"@)
        }),
{
    law_loaded_records_in_order(content);
    let ls = lines(content);
    let p = lemma_record_position(ls, ls.len() as int, k);
    let own = body(ls, p + 1);
    assert forall|i: int| 0 <= i < own.len() implies !(#[trigger] own[i]).contains('\n') && trim(
        own[i],
    ).len() > 0 by {
        let q = lemma_body_lines(ls, p + 1, i);
        lemma_lines_hold_no_feed(content, q);
    }
    lemma_joined_not_blank(own);
}

} // verus!
