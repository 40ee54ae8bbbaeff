//! Reading the records back from the picks file.

use vstd::prelude::*;
use vstd::slice::slice_subrange;

use crate::calendar::weekday;
use crate::numbers::{
    is_digit, law_signed_reads_back, law_unsigned_reads_back, lemma_digits_not_negative,
    lemma_show_nat, numeral_value, only_digits, parse_i32, parse_u32, read_i32, read_u32, show_int,
    show_nat,
};
use crate::odds_page::{day_name, link_readable, starting_time};
use crate::records::{count_picks, day_key, picks_in, record_views, Record, RecordView};
use crate::schedule::{
    date_in_range, eastern_date, game_clock, show_date, stamp_parts, uppercase,
};
use crate::text::{
    chars_of, copy_of, ends_with, find, is_space, join, join_texts, lemma_split_on_nonempty, lines,
    lines_of, split_on, split_text_on, starts_with, string_of, text_ends_with, text_eq,
    text_starts_with, texts, trim, trim_end, trim_of, trim_start, words, words_of,
};
use crate::text_facts::{
    lemma_one_word, lemma_split_concat, lemma_split_plain, lemma_trim_end, lemma_words_concat,
    lemma_words_space_after, no_space,
};

verus! {

/// The date of a day such as `Monday 3/9/2026`, as month, day and year.
pub open spec fn section_date(day: Seq<char>) -> Option<(int, int, int)> {
    if words(day).len() < 2 {
        None
    } else {
        let p = split_on(words(day)[1], '/');
        if p.len() != 3 {
            None
        } else {
            match (read_u32(p[0]), read_u32(p[1]), read_i32(p[2])) {
                (Some(mo), Some(dy), Some(yr)) => Some((mo, dy, yr)),
                _ => None,
            }
        }
    }
}

/// "Monday 3/9/2026" -> Some((3, 9, 2026))
pub fn parse_section_date(day_str: &str) -> (r: Option<(u32, u32, i32)>)
    ensures
        match r {
            Some(d) => section_date(day_str@) == Some((d.0 as int, d.1 as int, d.2 as int)),
            None => section_date(day_str@) is None,
        },
{
    let cs = chars_of(day_str);
    let ws = words_of(&cs);
    assert(texts(ws@) == words(day_str@));
    if ws.len() < 2 {
        return None;
    }
    assert(words(day_str@)[1] == ws@[1]@);
    let parts = split_text_on(&ws[1], '/');
    let ghost p = split_on(words(day_str@)[1], '/');
    assert(texts(parts@) == p);
    if parts.len() != 3 {
        return None;
    }
    assert(p[0] == parts@[0]@ && p[1] == parts@[1]@ && p[2] == parts@[2]@);
    match (parse_u32(&parts[0]), parse_u32(&parts[1]), parse_i32(&parts[2])) {
        (Some(mo), Some(dy), Some(yr)) => Some((mo, dy, yr)),
        _ => None,
    }
}

/// The heading of a day: `=== Monday 3/9/2026 ===`.
pub open spec fn is_day_line(line: Seq<char>) -> bool {
    starts_with(line, "=== "@) && ends_with(line, " ==="@)
}

/// The address of a game in square brackets.
pub open spec fn is_url_line(line: Seq<char>) -> bool {
    starts_with(line, seq!['[']) && ends_with(line, seq![']'])
}

/// What has been read of a picks file: the records so far, and the day, the address and the lines
/// of the record that is being read.
pub struct Reading {
    pub records: Seq<RecordView>,
    pub day: Seq<char>,
    pub url: Seq<char>,
    pub block: Seq<Seq<char>>,
}

/// The record that a day, an address and the lines of a game make.
pub open spec fn read_record(
    day: Seq<char>,
    url: Seq<char>,
    block: Seq<Seq<char>>,
) -> RecordView {
    let text = join(block, "\n"@);
    RecordView { day, url, block: text, picks: count_picks(lines(text)) }
}

/// The reading with the open record closed, where it has an address and lines.
pub open spec fn closed_record(r: Reading) -> Reading {
    if r.url.len() > 0 && r.block.len() > 0 {
        Reading {
            records: r.records.push(read_record(r.day, r.url, r.block)),
            day: r.day,
            url: r.url,
            block: Seq::empty(),
        }
    } else {
        r
    }
}

/// The reading after one more line.
pub open spec fn read_line(r: Reading, line: Seq<char>) -> Reading {
    if is_day_line(line) {
        let c = closed_record(r);
        Reading {
            records: c.records,
            day: line.subrange(4, line.len() - 4),
            url: Seq::empty(),
            block: c.block,
        }
    } else if is_url_line(line) {
        let c = closed_record(r);
        Reading {
            records: c.records,
            day: c.day,
            url: line.subrange(1, line.len() - 1),
            block: c.block,
        }
    } else if r.url.len() > 0 && trim(line).len() > 0 {
        Reading { records: r.records, day: r.day, url: r.url, block: r.block.push(line) }
    } else {
        r
    }
}

/// The reading before the first line.
pub open spec fn start_reading() -> Reading {
    Reading {
        records: Seq::empty(),
        day: Seq::empty(),
        url: Seq::empty(),
        block: Seq::empty(),
    }
}

/// The reading after all of the lines.
pub open spec fn read_lines(r: Reading, ls: Seq<Seq<char>>) -> Reading
    decreases ls.len(),
{
    if ls.len() == 0 {
        r
    } else {
        read_line(read_lines(r, ls.drop_last()), ls.last())
    }
}

/// The records of a picks file.
pub open spec fn loaded(content: Seq<char>) -> Seq<RecordView> {
    closed_record(read_lines(start_reading(), lines(content))).records
}

/// No heading lacks room for a day.
pub open spec fn headings_readable(content: Seq<char>) -> bool {
    forall|i: int|
        0 <= i < lines(content).len() ==> #[trigger] lines(content)[i] != "=== ==="@
}

/// The heading of a day has room for the day.
pub(crate) proof fn lemma_day_line_len(line: Seq<char>)
    requires
        is_day_line(line),
        line != "=== ==="@,
    ensures
        line.len() >= 8,
{
    reveal_strlit("=== ");
    reveal_strlit(" ===");
    reveal_strlit("=== ===");
    if line.len() < 8 {
        let a = line.subrange(0, 4);
        let b = line.subrange(line.len() - 4, line.len() as int);
        assert(a[0] == '=' && a[1] == '=' && a[2] == '=' && a[3] == ' ');
        assert(b[0] == ' ' && b[1] == '=' && b[2] == '=' && b[3] == '=');
        assert(line[3] == ' ' && line[line.len() - 4] == ' ');
        assert(line[0] == a[0] && line[1] == a[1] && line[2] == a[2]);
        assert(line[line.len() - 3] == b[1]);
        assert(line[line.len() - 2] == b[2]);
        assert(line[line.len() - 1] == b[3]);
        assert(line.len() == 7);
        assert(line =~= "=== ==="@);
    }
}

/// Tells whether every heading of a picks file has room for a day.
pub fn headings_fit(content: &str) -> (r: bool)
    ensures
        r == headings_readable(content@),
{
    let cs = chars_of(content);
    let ls = lines_of(&cs);
    let bare = chars_of("=== ===");
    for i in 0..ls.len()
        invariant
            bare@ == "=== ==="@,
            texts(ls@) == lines(content@),
            forall|j: int| 0 <= j < i ==> #[trigger] lines(content@)[j] != "=== ==="@,
    {
        assert(lines(content@)[i as int] == ls@[i as int]@);
        if text_eq(&ls[i], &bare) {
            assert(i < lines(content@).len());
            return false;
        }
    }
    assert(lines(content@).len() == ls@.len());
    true
}

fn close_record(
    records: &mut Vec<Record>,
    day: &Vec<char>,
    url: &Vec<char>,
    block: &mut Vec<Vec<char>>,
)
    ensures
        ({
            let c = closed_record(
                Reading {
                    records: record_views(old(records)@),
                    day: day@,
                    url: url@,
                    block: texts(old(block)@),
                },
            );
            record_views(final(records)@) == c.records && texts(final(block)@) == c.block
        }),
{
    if url.len() > 0 && block.len() > 0 {
        let text = join_texts(block, &chars_of("\n"));
        let picks: usize = picks_in(&text);
        let record = Record {
            day: string_of(day),
            url: string_of(url),
            block: string_of(&text),
            picks,
        };
        let ghost one = record@;
        records.push(record);
        assert(record_views(records@) =~= record_views(old(records)@).push(one));
        block.clear();
        assert(texts(block@) =~= Seq::<Seq<char>>::empty());
    }
}

/// Reads the records of a picks file. Its first line holds the totals; then follow, for each day,
/// a heading such as `=== Monday ===` and, for each game, its address in square brackets and its
/// lines.
pub fn load_records(content: &str) -> (r: Vec<Record>)
    requires
        headings_readable(content@),
    ensures
        record_views(r@) == loaded(content@),
{
    let cs = chars_of(content);
    let ls = lines_of(&cs);
    let ghost all = lines(content@);
    let heading_start = chars_of("=== ");
    let heading_end = chars_of(" ===");
    let bracket: [char; 1] = ['['];
    let end_bracket: [char; 1] = [']'];
    assert(bracket@ =~= seq!['[']);
    assert(end_bracket@ =~= seq![']']);
    let mut records: Vec<Record> = Vec::new();
    let mut day: Vec<char> = Vec::new();
    let mut url: Vec<char> = Vec::new();
    let mut block: Vec<Vec<char>> = Vec::new();
    proof {
        assert(record_views(records@) =~= Seq::<RecordView>::empty());
        assert(texts(block@) =~= Seq::<Seq<char>>::empty());
        assert(day@ =~= Seq::<char>::empty());
        assert(url@ =~= Seq::<char>::empty());
    }
    for i in 0..ls.len()
        invariant
            heading_start@ == "=== "@,
            heading_end@ == " ==="@,
            bracket@ == seq!['['],
            end_bracket@ == seq![']'],
            texts(ls@) == all,
            all == lines(content@),
            headings_readable(content@),
            (Reading {
                records: record_views(records@),
                day: day@,
                url: url@,
                block: texts(block@),
            }) == read_lines(start_reading(), all.take(i as int)),
    {
        assert(all.take(i + 1).drop_last() =~= all.take(i as int));
        assert(all[i as int] == ls@[i as int]@);
        assert(all[i as int] != "=== ==="@);
        let line = &ls[i];
        let n: usize = line.len();
        if text_starts_with(line, &heading_start) && text_ends_with(line, &heading_end) {
            proof {
                lemma_day_line_len(line@);
            }
            close_record(&mut records, &day, &url, &mut block);
            url = Vec::new();
            assert(url@ =~= Seq::<char>::empty());
            day = copy_of(slice_subrange(line, 4, n - 4));
        } else if text_starts_with(line, &bracket) && text_ends_with(line, &end_bracket) {
            proof {
                let a = line@.subrange(0, 1);
                let b = line@.subrange(n - 1, n as int);
                assert(a[0] == '[' && b[0] == ']');
                assert(n >= 2);
            }
            close_record(&mut records, &day, &url, &mut block);
            url = copy_of(slice_subrange(line, 1, n - 1));
        } else if url.len() > 0 && trim_of(line).len() > 0 {
            let ghost was = block@;
            block.push(copy_of(line));
            assert(texts(block@) =~= texts(was).push(line@));
        }
    }
    assert(all.len() == ls@.len());
    assert(all.take(all.len() as int) =~= all);
    close_record(&mut records, &day, &url, &mut block);
    records
}

proof fn lemma_digits(s: Seq<char>, c: char)
    requires
        only_digits(s),
        !is_digit(c),
    ensures
        !s.contains(c),
        no_space(s),
{
    assert forall|i: int| 0 <= i < s.len() implies s[i] != c && !is_space(#[trigger] s[i]) by {
        assert(is_digit(s[i]));
    }
}

/// A date that is written reads back, and it is one word.
pub(crate) proof fn lemma_date_reads_back(date: (int, int, int))
    requires
        i32::MIN <= date.0 <= i32::MAX,
        0 <= date.1 <= u32::MAX,
        0 <= date.2 <= u32::MAX,
    ensures
        split_on(show_date(date), '/') == seq![
            show_nat(date.1),
            show_nat(date.2),
            show_int(date.0),
        ],
        no_space(show_date(date)),
        show_date(date).len() > 0,
        show_date(date).contains('/'),
        !is_space(show_date(date).last()),
{
    reveal_strlit("/");
    let mo = show_nat(date.1);
    let dy = show_nat(date.2);
    let yr = show_int(date.0);
    lemma_show_nat(date.1);
    lemma_show_nat(date.2);
    lemma_digits(mo, '/');
    lemma_digits(dy, '/');
    let body = if date.0 < 0 {
        show_nat(-date.0)
    } else {
        show_nat(date.0)
    };
    lemma_show_nat(if date.0 < 0 {
        -date.0
    } else {
        date.0
    });
    lemma_digits(body, '/');
    assert forall|i: int| 0 <= i < yr.len() implies yr[i] != '/' && !is_space(#[trigger] yr[i]) by {
        if date.0 < 0 && i > 0 {
            assert(yr[i] == body[i - 1]);
            assert(is_digit(body[i - 1]));
        } else if date.0 >= 0 {
            assert(is_digit(body[i]));
        }
    }
    let s = show_date(date);
    let first = mo + "/"@;
    let second = dy + "/"@;
    assert(s =~= first + (second + yr));
    assert(s[mo.len() as int] == '/');
    assert(s.last() == yr[yr.len() - 1]);
    assert forall|i: int| 0 <= i < s.len() implies !is_space(#[trigger] s[i]) by {
        if i < mo.len() {
            assert(s[i] == mo[i]);
        } else if mo.len() < i && i < mo.len() + 1 + dy.len() {
            assert(s[i] == dy[i - mo.len() - 1]);
        } else if i > mo.len() + 1 + dy.len() {
            assert(s[i] == yr[i - mo.len() - dy.len() - 2]);
        }
    }
    lemma_split_plain(mo, '/');
    lemma_split_plain(dy, '/');
    lemma_split_plain(yr, '/');
    assert(first.drop_last() =~= mo);
    assert(second.drop_last() =~= dy);
    assert(split_on(first, '/') =~= seq![mo, Seq::empty()]);
    assert(split_on(second, '/') =~= seq![dy, Seq::empty()]);
    lemma_split_concat(second, yr, '/');
    assert(Seq::<char>::empty() + yr =~= yr);
    assert(split_on(second + yr, '/') =~= seq![dy, yr]);
    lemma_split_concat(first, second + yr, '/');
    assert(Seq::<char>::empty() + dy =~= dy);
    assert(split_on(s, '/') =~= seq![mo, dy, yr]);
}

pub(crate) proof fn lemma_day_name(day: int)
    ensures
        no_space(day_name(day)),
        day_name(day).len() > 0,
{
    reveal_strlit("Sunday");
    reveal_strlit("Monday");
    reveal_strlit("Tuesday");
    reveal_strlit("Wednesday");
    reveal_strlit("Thursday");
    reveal_strlit("Friday");
    reveal_strlit("Saturday");
}

proof fn lemma_blank_not_in(s: Seq<char>)
    requires
        no_space(s),
    ensures
        !s.contains(' '),
{
    if s.contains(' ') {
        let i = choose|i: int| 0 <= i < s.len() && s[i] == ' ';
        assert(!is_space(s[i]));
    }
}

/// The day of a starting time that begins with a word and a date is that word and that date.
proof fn lemma_day_of_time(name: Seq<char>, date: Seq<char>, clock: Seq<char>)
    requires
        no_space(name),
        name.len() > 0,
        no_space(date),
        date.len() > 0,
        date.contains('/'),
    ensures
        day_key(trim(name + " "@ + date + " "@ + clock)) == name + " "@ + date,
{
    reveal_strlit(" ");
    let x = name + " "@ + date;
    let y = " "@ + clock;
    let t = name + " "@ + date + " "@ + clock;
    assert(t =~= x + y);
    assert(!is_space(name[0]));
    assert(trim_start(t) == t);
    assert(!is_space(date[date.len() - 1]));
    lemma_trim_end(t);
    let kept = trim_end(t);
    let n = kept.len() as int;
    assert(n >= x.len()) by {
        if n < x.len() {
            assert(is_space(t.skip(n)[x.len() - 1 - n]));
            assert(t.skip(n)[x.len() - 1 - n] == t[x.len() - 1]);
        }
    }
    let rest = kept.skip(x.len() as int);
    assert(kept =~= x + rest);
    assert(rest.len() > 0 ==> rest[0] == ' ');
    lemma_blank_not_in(name);
    lemma_blank_not_in(date);
    lemma_split_plain(name, ' ');
    lemma_split_plain(date, ' ');
    let first = name + " "@;
    assert(first.drop_last() =~= name);
    assert(split_on(first, ' ') =~= seq![name, Seq::empty()]);
    lemma_split_concat(first, date, ' ');
    assert(Seq::<char>::empty() + date =~= date);
    assert(split_on(x, ' ') =~= seq![name, date]);
    lemma_split_concat(x, rest, ' ');
    lemma_split_on_nonempty(rest, ' ');
    if rest.len() > 0 {
        let one = seq![' '];
        assert(rest =~= one + rest.skip(1));
        lemma_split_concat(one, rest.skip(1), ' ');
        lemma_split_on_nonempty(rest.skip(1), ' ');
        assert(one.drop_last() =~= Seq::<char>::empty());
        lemma_split_plain(Seq::empty(), ' ');
        assert(split_on(one, ' ') =~= seq![Seq::empty(), Seq::empty()]);
        assert(split_on(rest, ' ')[0] =~= Seq::<char>::empty());
    }
    assert(date + split_on(rest, ' ')[0] =~= date);
    let p = split_on(kept, ' ');
    assert(p[0] == name && p[1] == date);
}

/// The day under which a game is kept reads back as its Eastern date, where its link holds one.
pub proof fn law_start_day_reads_back(html: Seq<char>, link: Seq<char>, raw: Seq<char>)
    ensures
        link_readable(raw) ==> (eastern_date(uppercase(trim(raw))) matches Some(date) ==> {
            let day = day_key(starting_time(html, link, raw));
            &&& day == day_name(weekday(date.0, date.1, date.2)) + " "@ + show_date(date)
            &&& section_date(day) == Some((date.1, date.2, date.0))
        }),
{
    let up = uppercase(trim(raw));
    if link_readable(raw) && eastern_date(up) is Some {
        let date = eastern_date(up)->0;
        let name = day_name(weekday(date.0, date.1, date.2));
        let shown = show_date(date);
        assert(stamp_parts(up) is Some);
        lemma_numerals_not_negative(up);
        lemma_date_reads_back(date);
        lemma_day_name(weekday(date.0, date.1, date.2));
        lemma_day_of_time(name, shown, game_clock(trim(raw), up));
        reveal_strlit(" ");
        let first = name + " "@;
        lemma_words_concat(first, shown);
        lemma_words_space_after(name, " "@);
        lemma_one_word(name);
        lemma_one_word(shown);
        let day = first + shown;
        assert(words(day) =~= seq![name, shown]);
        law_unsigned_reads_back(date.1);
        law_unsigned_reads_back(date.2);
        law_signed_reads_back(date.0);
    }
}

proof fn lemma_numeral_not_negative(s: Seq<char>)
    requires
        only_digits(s),
    ensures
        numeral_value(s) >= 0,
{
    lemma_digits_not_negative(s);
}

/// The Eastern date of a readable stamp stays in the range of its parts.
proof fn lemma_numerals_not_negative(up: Seq<char>)
    requires
        stamp_parts(up) is Some,
        date_in_range(up),
    ensures
        eastern_date(up) matches Some(date) ==> {
            &&& i32::MIN <= date.0 <= i32::MAX
            &&& 0 <= date.1 <= u32::MAX
            &&& 0 <= date.2 <= u32::MAX
        },
{
    let t = find(up, seq!['T'])->0;
    let p = split_on(up.take(t), '-');
    lemma_read_u32_range(p[1]);
    lemma_read_u32_range(p[2]);
}

proof fn lemma_read_u32_range(s: Seq<char>)
    ensures
        read_u32(s) matches Some(n) ==> 0 <= n <= u32::MAX,
{
    if read_u32(s) is Some {
        let body = if s.len() > 0 && s[0] == '+' {
            s.drop_first()
        } else {
            s
        };
        lemma_numeral_not_negative(body);
    }
}

/// A heading of a word and a date has that date, whatever the word.
pub proof fn law_heading_date_reads_back(name: Seq<char>, date: (int, int, int))
    requires
        no_space(name),
        name.len() > 0,
        i32::MIN <= date.0 <= i32::MAX,
        0 <= date.1 <= u32::MAX,
        0 <= date.2 <= u32::MAX,
    ensures
        section_date(name + seq![' '] + show_date(date)) == Some((date.1, date.2, date.0)),
        section_date(name) is None,
{
    let shown = show_date(date);
    let blank = seq![' '];
    let day = name + blank + shown;
    lemma_date_reads_back(date);
    lemma_words_concat(name + blank, shown);
    lemma_words_space_after(name, blank);
    lemma_one_word(name);
    lemma_one_word(shown);
    assert(words(day) =~= seq![name, shown]);
    law_unsigned_reads_back(date.1);
    law_unsigned_reads_back(date.2);
    law_signed_reads_back(date.0);
}

/// A line is a heading where it starts with three equals signs and a blank and ends with a blank
/// and three equals signs, and it is an address where it stands in square brackets.
pub proof fn law_marks_of_the_file(line: Seq<char>)
    ensures
        is_day_line(line) <==> line.len() >= 4 && line.take(4) == seq!['=', '=', '=', ' ']
            && line.skip(line.len() - 4) == seq![' ', '=', '=', '='],
        is_url_line(line) <==> line.len() > 0 && line[0] == '[' && line.last() == ']',
{
    reveal_strlit("=== ");
    reveal_strlit(" ===");
    let n = line.len() as int;
    assert("=== "@ =~= seq!['=', '=', '=', ' ']);
    assert(" ==="@ =~= seq![' ', '=', '=', '=']);
    if n >= 4 {
        assert(line.subrange(0, 4) =~= line.take(4));
        assert(line.subrange(n - 4, n) =~= line.skip(n - 4));
    }
    if n > 0 {
        assert(line.subrange(0, 1) =~= seq![line[0]]);
        assert(line.subrange(n - 1, n) =~= seq![line.last()]);
        if is_url_line(line) {
            assert(seq![line[0]][0] == seq!['['][0]);
            assert(seq![line.last()][0] == seq![']'][0]);
        }
    }
}

} // verus!
