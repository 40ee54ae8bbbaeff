//! When a game starts: the date and the time of day in Eastern time, read from what the odds page
//! shows.

use vstd::prelude::*;
use vstd::slice::slice_subrange;

use crate::bytes::{byte_len, cut_at, cut_from, cut_of};
use crate::calendar::{
    day_before, day_number, eastern_offset_at, et_offset_at, is_date,
    law_prev_day_steps_back_one_day, prev_day,
};
use crate::numbers::{
    ascii_small_all, is_digit, is_numeral, law_digits_are_read, law_signed_reads_back,
    law_two_digits_read_back, law_unsigned_reads_back, lemma_char_found,
    lemma_digits_not_negative, lemma_show_nat, numeral_value, parse_i32, parse_u32, push_int,
    push_nat, push_two_digits, read_i32, read_u32, show_int, show_nat, show_two_digits,
};
use crate::text::{
    chars_of, ends_with, extend_str, find, find_text, lemma_find_from, rfind_char, rfind_of_char,
    split_on, split_text_on, string_of, strip_end, strip_end_of, text_ends_with, texts, trim,
    trim_of,
};
use crate::text_facts::{
    law_last_place_of_a_character, law_stripping_takes_the_end_alone, lemma_split_concat,
    lemma_split_plain,
};

verus! {

/// The capital letters of a text, as `str::to_uppercase` gives them.
pub uninterp spec fn uppercase(s: Seq<char>) -> Seq<char>;

/// The small letters of a text, as `str::to_lowercase` gives them.
pub uninterp spec fn lowercase(s: Seq<char>) -> Seq<char>;

pub open spec fn all_ascii(s: Seq<char>) -> bool {
    forall|i: int| 0 <= i < s.len() ==> #[trigger] s[i] as u32 <= 0x7f
}

pub open spec fn ascii_capital(c: char) -> char {
    if 'a' <= c && c <= 'z' {
        (c as int - 32) as char
    } else {
        c
    }
}

/// A text with its ASCII letters in capitals.
pub open spec fn ascii_capitals(s: Seq<char>) -> Seq<char> {
    s.map_values(|c: char| ascii_capital(c))
}

/// `str::to_uppercase`: the same text in capital letters, by the Unicode tables.
///
/// Claimed: the result depends on the text alone, and in a text of ASCII characters it is each
/// letter `a` to `z` that changes, to the capital letter `A` to `Z`.
pub assume_specification[ str::to_uppercase ](s: &str) -> (r: String)
    ensures
        r@ == uppercase(s@),
        all_ascii(s@) ==> r@ == ascii_capitals(s@),
;

/// `str::to_lowercase`: the same text in small letters, by the Unicode tables.
///
/// Claimed: the result depends on the text alone, and in a text of ASCII characters it is each
/// letter `A` to `Z` that changes, to the small letter `a` to `z`.
pub assume_specification[ str::to_lowercase ](s: &str) -> (r: String)
    ensures
        r@ == lowercase(s@),
        all_ascii(s@) ==> r@ == ascii_small_all(s@),
;

/// The date, as year, month and day, and the time of a stamp such as `2026-03-09T23:00Z`. The
/// time has no `Z` at its end.
pub open spec fn stamp_parts(up: Seq<char>) -> Option<((int, int, int), Seq<char>)> {
    match find(up, seq!['T']) {
        None => None,
        Some(t) => {
            let p = split_on(up.take(t), '-');
            if p.len() == 3 {
                match (read_i32(p[0]), read_u32(p[1]), read_u32(p[2])) {
                    (Some(y), Some(m), Some(d)) => Some(
                        ((y, m, d), strip_end(up.skip(t + 1), 'Z')),
                    ),
                    _ => None,
                }
            } else {
                None
            }
        },
    }
}

/// The number before the first colon.
pub open spec fn hour_of(time: Seq<char>) -> Option<int> {
    match find(time, seq![':']) {
        None => None,
        Some(c) => read_i32(time.take(c)),
    }
}

/// The hour in Eastern time for an hour in UTC, less than zero where it falls on the day before.
pub open spec fn eastern_hour(date: (int, int, int), hour: int) -> int {
    hour + eastern_offset_at(date.0, date.1, date.2, hour)
}

/// The Eastern date of a stamp: the date of the stamp, or the day before where its hour falls
/// there. A stamp without an hour keeps its date.
pub open spec fn eastern_date(up: Seq<char>) -> Option<(int, int, int)> {
    match stamp_parts(up) {
        None => None,
        Some((date, time)) => match hour_of(time) {
            Some(h) => if eastern_hour(date, h) < 0 {
                Some(day_before(date.0, date.1, date.2))
            } else {
                Some(date)
            },
            None => Some(date),
        },
    }
}

/// The numbers of a stamp stay in the range of `i32`.
pub open spec fn date_in_range(up: Seq<char>) -> bool {
    stamp_parts(up) matches Some((date, time)) ==> (hour_of(time) matches Some(h) ==> {
        &&& eastern_hour(date, h) >= i32::MIN
        &&& eastern_hour(date, h) < 0 ==> (date.0 > i32::MIN || date.1 > 1 || date.2 > 1)
    })
}

/// A date as month, day and year.
pub open spec fn show_date(date: (int, int, int)) -> Seq<char> {
    show_nat(date.1) + "/"@ + show_nat(date.2) + "/"@ + show_int(date.0)
}

/// The Eastern date of a stamp as month, day and year; nothing where there is no stamp.
pub open spec fn short_date(up: Seq<char>) -> Seq<char> {
    match eastern_date(up) {
        Some(date) => show_date(date),
        None => Seq::empty(),
    }
}

/// An hour of the day as 12 to 11.
pub open spec fn clock_hour(hour: int) -> int {
    if hour % 12 == 0 {
        12
    } else {
        hour % 12
    }
}

/// The time of day on a twelve-hour clock.
pub open spec fn show_clock(hour: int, minute: int) -> Seq<char> {
    show_nat(clock_hour(hour)) + ":"@ + show_two_digits(minute) + (if hour < 12 {
        "am"@
    } else {
        "pm"@
    })
}

/// The number in the two bytes after the first colon.
pub open spec fn minute_of(time: Seq<char>) -> Option<int> {
    match find(time, seq![':']) {
        None => None,
        Some(c) => {
            let rest = time.skip(c + 1);
            match cut_at(rest, 2) {
                None => None,
                Some(k) => read_u32(rest.take(k)),
            }
        },
    }
}

/// The Eastern time of day of a stamp that ends in `Z`.
pub open spec fn stamp_clock(up: Seq<char>) -> Option<Seq<char>> {
    match stamp_parts(up) {
        None => None,
        Some((date, time)) => match (hour_of(time), minute_of(time)) {
            (Some(h), Some(m)) => if ends_with(up, seq!['Z']) {
                Some(show_clock(eastern_hour(date, h) % 24, m))
            } else {
                None
            },
            _ => None,
        },
    }
}

/// After the colon of a stamp that ends in `Z` two bytes can be read, and the hour stays in the
/// range of `i32`.
pub open spec fn clock_in_range(up: Seq<char>) -> bool {
    (ends_with(up, seq!['Z']) && stamp_parts(up) is Some) ==> {
        let (date, time) = stamp_parts(up)->0;
        find(time, seq![':']) matches Some(c) ==> {
            &&& cut_at(time.skip(c + 1), 2) is Some
            &&& (hour_of(time) is Some && minute_of(time) is Some) ==> eastern_hour(
                date,
                hour_of(time)->0,
            ) >= i32::MIN
        }
    }
}

/// A time such as `7:00 PM` with its last word in small letters and no blank before it.
pub open spec fn plain_clock(t: Seq<char>) -> Seq<char> {
    match rfind_char(t, ' ') {
        Some(i) => t.take(i) + lowercase(t.skip(i + 1)),
        None => lowercase(t),
    }
}

/// `plain_clock` of a text of ASCII characters.
pub open spec fn ascii_plain_clock(t: Seq<char>) -> Seq<char> {
    match rfind_char(t, ' ') {
        Some(i) => t.take(i) + ascii_small_all(t.skip(i + 1)),
        None => ascii_small_all(t),
    }
}

/// The time of day that a text of ASCII characters shows.
pub open spec fn ascii_game_clock(t: Seq<char>) -> Seq<char> {
    match stamp_clock(ascii_capitals(t)) {
        Some(clock) => clock,
        None => ascii_plain_clock(t),
    }
}

/// The time of day that a text shows; `t` is the text and `up` the text in capital letters.
pub open spec fn game_clock(t: Seq<char>, up: Seq<char>) -> Seq<char> {
    match stamp_clock(up) {
        Some(clock) => clock,
        None => plain_clock(t),
    }
}

/// What a stamp holds.
struct Stamp {
    year: i32,
    month: u32,
    day: u32,
    time: Vec<char>,
}

impl Stamp {
    spec fn date(&self) -> (int, int, int) {
        (self.year as int, self.month as int, self.day as int)
    }
}

fn read_stamp(up: &[char]) -> (r: Option<Stamp>)
    ensures
        match r {
            Some(s) => stamp_parts(up@) == Some((s.date(), s.time@)),
            None => stamp_parts(up@) is None,
        },
{
    let tee: [char; 1] = ['T'];
    assert(tee@ =~= seq!['T']);
    let n: usize = up.len();
    let t: usize = match find_text(up, &tee) {
        Some(t) => t,
        None => return None,
    };
    assert(up@.subrange(0, t as int) =~= up@.take(t as int));
    assert(up@.subrange(t + 1, up@.len() as int) =~= up@.skip(t + 1));
    let parts = split_text_on(slice_subrange(up, 0, t), '-');
    if parts.len() != 3 {
        return None;
    }
    let ghost p = split_on(up@.take(t as int), '-');
    assert(texts(parts@) == p);
    assert(p[0] == parts@[0]@ && p[1] == parts@[1]@ && p[2] == parts@[2]@);
    match (parse_i32(&parts[0]), parse_u32(&parts[1]), parse_u32(&parts[2])) {
        (Some(year), Some(month), Some(day)) => {
            let time = crate::text::copy_of(strip_end_of(slice_subrange(up, t + 1, n), 'Z'));
            Some(Stamp { year, month, day, time })
        },
        _ => None,
    }
}

fn read_hour(time: &[char]) -> (r: Option<i32>)
    ensures
        match r {
            Some(h) => hour_of(time@) == Some(h as int),
            None => hour_of(time@) is None,
        },
{
    let colon: [char; 1] = [':'];
    assert(colon@ =~= seq![':']);
    match find_text(time, &colon) {
        Some(c) => {
            assert(time@.subrange(0, c as int) =~= time@.take(c as int));
            parse_i32(slice_subrange(time, 0, c))
        },
        None => None,
    }
}

/// Tells whether the numbers of a stamp stay in the range of `i32`. The text is in capital
/// letters.
pub fn date_fits(up: &str) -> (r: bool)
    ensures
        r == date_in_range(up@),
{
    let cs = chars_of(up);
    let s = match read_stamp(&cs) {
        Some(s) => s,
        None => return true,
    };
    let h: i32 = match read_hour(&s.time) {
        Some(h) => h,
        None => return true,
    };
    let hour: i64 = h as i64 + et_offset_at(s.year, s.month, s.day, h) as i64;
    hour >= i32::MIN as i64 && (hour >= 0 || s.year > i32::MIN || s.month > 1 || s.day > 1)
}

/// The Eastern date of a stamp, as year, month and day. The text is in capital letters.
pub fn date_of_stamp(up: &str) -> (r: Option<(i32, u32, u32)>)
    requires
        date_in_range(up@),
    ensures
        match r {
            Some(d) => eastern_date(up@) == Some((d.0 as int, d.1 as int, d.2 as int)),
            None => eastern_date(up@) is None,
        },
{
    let cs = chars_of(up);
    let s = match read_stamp(&cs) {
        Some(s) => s,
        None => return None,
    };
    if let Some(h) = read_hour(&s.time) {
        if h + et_offset_at(s.year, s.month, s.day, h) < 0 {
            return Some(prev_day(s.year, s.month, s.day));
        }
    }
    Some((s.year, s.month, s.day))
}

/// A date as month, day and year.
pub fn date_text(year: i32, month: u32, day: u32) -> (r: String)
    ensures
        r@ == show_date((year as int, month as int, day as int)),
{
    let mut out: Vec<char> = Vec::new();
    push_nat(&mut out, month as u64);
    extend_str(&mut out, "/");
    push_nat(&mut out, day as u64);
    extend_str(&mut out, "/");
    push_int(&mut out, year as i64);
    assert(out@ =~= show_date((year as int, month as int, day as int)));
    string_of(&out)
}

/// The Eastern date of a stamp in capital letters, as month, day and year.
pub fn short_date_of_stamp(up: &str) -> (r: String)
    requires
        date_in_range(up@),
    ensures
        r@ == short_date(up@),
{
    match date_of_stamp(up) {
        Some((year, month, day)) => date_text(year, month, day),
        None => String::new(),
    }
}

/// The text without white space at its ends, in capital letters.
pub fn stamp_text(raw: &str) -> (r: String)
    ensures
        r@ == uppercase(trim(raw@)),
        all_ascii(trim(raw@)) ==> r@ == ascii_capitals(trim(raw@)),
{
    let cs = chars_of(raw);
    string_of(trim_of(&cs)).to_uppercase()
}

/// "2026-03-09T23:00Z" -> "3/9/2026": the Eastern date, not the UTC one. Nothing where the text
/// holds no stamp.
pub fn short_date_from_iso(raw: &str) -> (r: String)
    requires
        date_in_range(uppercase(trim(raw@))),
    ensures
        r@ == short_date(uppercase(trim(raw@))),
        all_ascii(trim(raw@)) ==> r@ == short_date(ascii_capitals(trim(raw@))),
{
    short_date_of_stamp(stamp_text(raw).as_str())
}

/// `short_date_from_iso`, or nothing where the numbers of the stamp leave the range of `i32`.
pub fn try_short_date_from_iso(raw: &str) -> (r: Option<String>)
    ensures
        match r {
            Some(date) => date_in_range(uppercase(trim(raw@))) && date@ == short_date(
                uppercase(trim(raw@)),
            ),
            None => !date_in_range(uppercase(trim(raw@))),
        },
        all_ascii(trim(raw@)) ==> match r {
            Some(date) => date_in_range(ascii_capitals(trim(raw@))) && date@ == short_date(
                ascii_capitals(trim(raw@)),
            ),
            None => !date_in_range(ascii_capitals(trim(raw@))),
        },
{
    if date_fits(stamp_text(raw).as_str()) {
        Some(short_date_from_iso(raw))
    } else {
        None
    }
}

/// The minute of a time, and whether two bytes can be read after its colon.
fn read_minute(time: &[char]) -> (r: (bool, Option<u32>))
    ensures
        r.0 == (find(time@, seq![':']) matches Some(c) ==> cut_at(time@.skip(c + 1), 2) is Some),
        match r.1 {
            Some(m) => minute_of(time@) == Some(m as int),
            None => minute_of(time@) is None,
        },
{
    let colon: [char; 1] = [':'];
    assert(colon@ =~= seq![':']);
    let n: usize = time.len();
    match find_text(time, &colon) {
        Some(c) => {
            assert(time@.subrange(c + 1, time@.len() as int) =~= time@.skip(c + 1));
            let rest = slice_subrange(time, c + 1, n);
            match cut_of(rest, 2) {
                Some(k) => {
                    assert(rest@.subrange(0, k as int) =~= rest@.take(k as int));
                    (true, parse_u32(slice_subrange(rest, 0, k)))
                },
                None => (false, None),
            }
        },
        None => (true, None),
    }
}

/// Tells whether the time of a stamp can be read. The text is in capital letters.
pub fn clock_fits(up: &str) -> (r: bool)
    ensures
        r == clock_in_range(up@),
{
    let cs = chars_of(up);
    let zed: [char; 1] = ['Z'];
    assert(zed@ =~= seq!['Z']);
    if !text_ends_with(&cs, &zed) {
        return true;
    }
    let s = match read_stamp(&cs) {
        Some(s) => s,
        None => return true,
    };
    let (readable, minute) = read_minute(&s.time);
    if !readable {
        return false;
    }
    match (read_hour(&s.time), minute) {
        (Some(h), Some(_)) => h as i64 + et_offset_at(s.year, s.month, s.day, h) as i64
            >= i32::MIN as i64,
        _ => true,
    }
}

fn clock_text(hour: u32, minute: u32) -> (r: String)
    requires
        hour < 24,
    ensures
        r@ == show_clock(hour as int, minute as int),
{
    let mut out: Vec<char> = Vec::new();
    let twelve: u32 = if hour % 12 == 0 {
        12
    } else {
        hour % 12
    };
    push_nat(&mut out, twelve as u64);
    extend_str(&mut out, ":");
    push_two_digits(&mut out, minute as u64);
    if hour < 12 {
        extend_str(&mut out, "am");
    } else {
        extend_str(&mut out, "pm");
    }
    assert(out@ =~= show_clock(hour as int, minute as int));
    string_of(&out)
}

/// The Eastern time of day of a stamp that ends in `Z`. The text is in capital letters.
pub fn clock_of_stamp(up: &str) -> (r: Option<String>)
    requires
        clock_in_range(up@),
    ensures
        match r {
            Some(t) => stamp_clock(up@) == Some(t@),
            None => stamp_clock(up@) is None,
        },
{
    let cs = chars_of(up);
    let zed: [char; 1] = ['Z'];
    assert(zed@ =~= seq!['Z']);
    if !text_ends_with(&cs, &zed) {
        return None;
    }
    let s = match read_stamp(&cs) {
        Some(s) => s,
        None => return None,
    };
    match (read_hour(&s.time), read_minute(&s.time).1) {
        (Some(h), Some(minute)) => {
            let hour: i32 = h + et_offset_at(s.year, s.month, s.day, h);
            Some(clock_text(hour.checked_rem_euclid(24).unwrap() as u32, minute))
        },
        _ => None,
    }
}

/// A time such as `7:00 PM` with its last word in small letters and no blank before it.
pub fn plain_time(t: &str) -> (r: String)
    ensures
        r@ == plain_clock(t@),
        all_ascii(t@) ==> r@ == ascii_plain_clock(t@),
{
    let cs = chars_of(t);
    let n: usize = cs.len();
    match rfind_of_char(&cs, ' ') {
        Some(i) => {
            assert(cs@.subrange(0, i as int) =~= t@.take(i as int));
            assert(cs@.subrange(i + 1, n as int) =~= t@.skip(i + 1));
            proof {
                if all_ascii(t@) {
                    assert forall|j: int| 0 <= j < t@.skip(i + 1).len() implies #[trigger] t@.skip(
                        i + 1,
                    )[j] as u32 <= 0x7f by {
                        assert(t@.skip(i + 1)[j] == t@[i + 1 + j]);
                    }
                }
            }
            let last = string_of(slice_subrange(&cs, i + 1, n)).to_lowercase();
            let mut out = crate::text::copy_of(slice_subrange(&cs, 0, i));
            extend_str(&mut out, last.as_str());
            string_of(&out)
        },
        None => t.to_lowercase(),
    }
}

/// "2026-03-09T23:00Z" -> "7:00pm": the Eastern time of day. Another text is taken for a plain
/// time: "7:00 PM" -> "7:00pm".
pub fn format_game_time(raw: &str) -> (r: String)
    requires
        clock_in_range(uppercase(trim(raw@))),
    ensures
        r@ == game_clock(trim(raw@), uppercase(trim(raw@))),
        all_ascii(trim(raw@)) ==> r@ == ascii_game_clock(trim(raw@)),
{
    match clock_of_stamp(stamp_text(raw).as_str()) {
        Some(clock) => clock,
        None => {
            let cs = chars_of(raw);
            plain_time(string_of(trim_of(&cs)).as_str())
        },
    }
}

/// `format_game_time`, or nothing where the time of the stamp cannot be read.
pub fn try_format_game_time(raw: &str) -> (r: Option<String>)
    ensures
        match r {
            Some(time) => clock_in_range(uppercase(trim(raw@))) && time@ == game_clock(
                trim(raw@),
                uppercase(trim(raw@)),
            ),
            None => !clock_in_range(uppercase(trim(raw@))),
        },
        all_ascii(trim(raw@)) ==> match r {
            Some(time) => clock_in_range(ascii_capitals(trim(raw@))) && time@ == ascii_game_clock(
                trim(raw@),
            ),
            None => !clock_in_range(ascii_capitals(trim(raw@))),
        },
{
    if clock_fits(stamp_text(raw).as_str()) {
        Some(format_game_time(raw))
    } else {
        None
    }
}

/// A stamp: a date, a `T`, an hour, a colon, a minute of two digits and a `Z`.
pub open spec fn stamp_of(
    date: (Seq<char>, Seq<char>, Seq<char>),
    hour: Seq<char>,
    minute: Seq<char>,
) -> Seq<char> {
    date.0.push('-') + date.1.push('-') + date.2.push('T') + hour.push(':') + minute.push('Z')
}

/// The parts of a stamp are numerals, and their numbers fit in 31 bits.
pub open spec fn is_stamp(
    date: (Seq<char>, Seq<char>, Seq<char>),
    hour: Seq<char>,
    minute: Seq<char>,
) -> bool {
    &&& is_numeral(date.0) && numeral_value(date.0) <= i32::MAX
    &&& is_numeral(date.1) && numeral_value(date.1) <= i32::MAX
    &&& is_numeral(date.2) && numeral_value(date.2) <= i32::MAX
    &&& is_numeral(hour) && numeral_value(hour) <= i32::MAX
    &&& is_numeral(minute) && minute.len() == 2
}

/// The date and the time of a stamp are read from it as its numerals write them.
pub proof fn law_stamps_are_read(
    date: (Seq<char>, Seq<char>, Seq<char>),
    hour: Seq<char>,
    minute: Seq<char>,
)
    requires
        is_stamp(date, hour, minute),
    ensures
        ({
            let up = stamp_of(date, hour, minute);
            &&& stamp_parts(up) matches Some((day, time)) && {
                &&& day == (numeral_value(date.0), numeral_value(date.1), numeral_value(date.2))
                &&& hour_of(time) == Some(numeral_value(hour))
                &&& minute_of(time) == Some(numeral_value(minute))
            }
            &&& ends_with(up, seq!['Z'])
        }),
{
    let up = stamp_of(date, hour, minute);
    let day = date.0.push('-') + date.1.push('-') + date.2;
    let time = hour.push(':') + minute;
    let t = day.len() as int;
    lemma_stamp_date(date);
    assert(up =~= day.push('T') + time.push('Z'));
    assert forall|i: int| 0 <= i < t implies up[i] != 'T' by {
        assert(day[i] == up[i]);
    }
    lemma_char_found(up, 'T', t);
    assert(up.take(t) =~= day);
    assert(up.skip(t + 1) =~= time.push('Z'));
    lemma_stamp_time(hour, minute);
    assert(time.push('Z').drop_last() =~= time);
    assert(strip_end(time.push('Z'), 'Z') == strip_end(time, 'Z'));
    assert(strip_end(time, 'Z') == time);
    assert(up.subrange(up.len() - 1, up.len() as int) =~= seq!['Z']);
}

proof fn lemma_stamp_date(date: (Seq<char>, Seq<char>, Seq<char>))
    requires
        is_numeral(date.0) && numeral_value(date.0) <= i32::MAX,
        is_numeral(date.1) && numeral_value(date.1) <= i32::MAX,
        is_numeral(date.2) && numeral_value(date.2) <= i32::MAX,
    ensures
        ({
            let day = date.0.push('-') + date.1.push('-') + date.2;
            let p = split_on(day, '-');
            &&& p == seq![date.0, date.1, date.2]
            &&& read_i32(p[0]) == Some(numeral_value(date.0))
            &&& read_u32(p[1]) == Some(numeral_value(date.1))
            &&& read_u32(p[2]) == Some(numeral_value(date.2))
            &&& forall|i: int| 0 <= i < day.len() ==> #[trigger] day[i] != 'T'
        }),
{
    let day = date.0.push('-') + date.1.push('-') + date.2;
    lemma_numeral_lacks(date.0);
    lemma_numeral_lacks(date.1);
    lemma_numeral_lacks(date.2);
    lemma_split_three(date.0, date.1, date.2, '-');
    law_digits_are_read(date.0);
    law_digits_are_read(date.1);
    law_digits_are_read(date.2);
    let a = date.0.len() as int;
    let b = a + 1 + date.1.len();
    assert forall|i: int| 0 <= i < day.len() implies #[trigger] day[i] != 'T' by {
        if i < a {
            assert(is_digit(date.0[i]));
        } else if a < i < b {
            assert(is_digit(date.1[i - a - 1]));
        } else if i > b {
            assert(is_digit(date.2[i - b - 1]));
        }
    }
}

proof fn lemma_stamp_time(hour: Seq<char>, minute: Seq<char>)
    requires
        is_numeral(hour) && numeral_value(hour) <= i32::MAX,
        is_numeral(minute) && minute.len() == 2,
    ensures
        hour_of(hour.push(':') + minute) == Some(numeral_value(hour)),
        minute_of(hour.push(':') + minute) == Some(numeral_value(minute)),
        (hour.push(':') + minute).last() != 'Z',
{
    let time = hour.push(':') + minute;
    let c = hour.len() as int;
    assert forall|i: int| 0 <= i < c implies time[i] != ':' by {
        assert(is_digit(hour[i]));
    }
    lemma_char_found(time, ':', c);
    assert(time.take(c) =~= hour);
    assert(time.skip(c + 1) =~= minute);
    law_digits_are_read(hour);
    law_digits_are_read(minute);
    assert(is_digit(minute[0]) && is_digit(minute[1]));
    lemma_small_cut(minute);
    assert(minute.take(2) =~= minute);
    let empty = Seq::<char>::empty();
    assert(minute.drop_last().drop_last() =~= empty);
    assert(numeral_value(empty) == 0);
    assert(numeral_value(minute.drop_last()) <= 9);
    assert(numeral_value(minute) <= 99);
}

/// Two ASCII characters take two bytes.
proof fn lemma_small_cut(s: Seq<char>)
    requires
        s.len() == 2,
        s[0] as u32 <= 0x7f,
        s[1] as u32 <= 0x7f,
    ensures
        cut_at(s, 2) == Some(2int),
{
    assert(s.take(2).drop_last() =~= s.take(1));
    assert(s.take(1).drop_last() =~= s.take(0));
    assert(s.take(0) =~= Seq::<char>::empty());
    assert(byte_len(s.take(0)) == 0);
    assert(byte_len(s.take(1)) == 1);
    assert(byte_len(s.take(2)) == 2);
    assert(cut_from(s, 2, 2) == Some(2int));
    assert(cut_from(s, 2, 1) == Some(2int));
}

/// A numeral holds neither a dash nor a slash.
proof fn lemma_numeral_lacks(s: Seq<char>)
    requires
        is_numeral(s),
    ensures
        !s.contains('-'),
        !s.contains('/'),
{
    if s.contains('-') {
        let i = choose|i: int| 0 <= i < s.len() && s[i] == '-';
        assert(is_digit(s[i]));
    }
    if s.contains('/') {
        let i = choose|i: int| 0 <= i < s.len() && s[i] == '/';
        assert(is_digit(s[i]));
    }
}

/// Three texts with a separator between each two are three pieces.
proof fn lemma_split_three(a: Seq<char>, b: Seq<char>, c: Seq<char>, sep: char)
    requires
        !a.contains(sep),
        !b.contains(sep),
        !c.contains(sep),
    ensures
        split_on(a.push(sep) + b.push(sep) + c, sep) == seq![a, b, c],
{
    let ls = seq![a, b, c];
    let none = Seq::<char>::empty();
    lemma_split_plain(a, sep);
    lemma_split_plain(b, sep);
    lemma_split_plain(c, sep);
    assert(a.push(sep).drop_last() =~= a);
    assert(b.push(sep).drop_last() =~= b);
    assert(split_on(a.push(sep), sep) =~= seq![a, none]);
    assert(split_on(b.push(sep), sep) =~= seq![b, none]);
    lemma_split_concat(a.push(sep), b.push(sep), sep);
    assert(seq![a, none].drop_last() =~= seq![a]);
    assert(none + b =~= b);
    assert(split_on(a.push(sep) + b.push(sep), sep) =~= seq![a, b, none]);
    lemma_split_concat(a.push(sep) + b.push(sep), c, sep);
    assert(seq![a, b, none].drop_last() =~= seq![a, b]);
    assert(none + c =~= c);
    assert(seq![c].drop_first() =~= Seq::<Seq<char>>::empty());
    assert(seq![a, b].push(c) + Seq::<Seq<char>>::empty() =~= ls);
}

/// A stamp and what is shown of it are the same moment: the Eastern date and hour, counted in hours
/// from one fixed day, differ from those of the stamp by the offset of that hour. The minute stays.
pub proof fn law_eastern_time_is_the_same_moment(
    up: Seq<char>,
    date: (int, int, int),
    time: Seq<char>,
    h: int,
    hour: int,
)
    requires
        stamp_parts(up) == Some((date, time)),
        is_date(date.0, date.1, date.2),
        hour_of(time) == Some(h),
        0 <= h < 24,
        0 <= hour < 24,
        (h + eastern_offset_at(date.0, date.1, date.2, h) - hour) % 24 == 0,
    ensures
        eastern_date(up) matches Some(day) && {
            &&& is_date(day.0, day.1, day.2)
            &&& 24 * day_number(day.0, day.1, day.2) + hour == 24 * day_number(
                date.0,
                date.1,
                date.2,
            ) + h + eastern_offset_at(date.0, date.1, date.2, h)
        },
        ends_with(up, seq!['Z']) && minute_of(time) is Some ==> stamp_clock(up) == Some(
            show_clock(hour, minute_of(time)->0),
        ),
        !ends_with(up, seq!['Z']) || minute_of(time) is None ==> stamp_clock(up) is None,
{
    law_prev_day_steps_back_one_day(date.0, date.1, date.2);
    let moved = h + eastern_offset_at(date.0, date.1, date.2, h);
    assert(-5 <= moved < 24);
    assert(moved % 24 == hour);
}

/// Any hour from 5 on, however great, keeps the date of its stamp, and any hour before 4, however
/// small, belongs to the day before. The clock shows the hour up to whole days.
pub proof fn law_unusual_hours(
    up: Seq<char>,
    date: (int, int, int),
    time: Seq<char>,
    h: int,
    hour: int,
)
    requires
        stamp_parts(up) == Some((date, time)),
        hour_of(time) == Some(h),
        0 <= hour < 24,
        (h + eastern_offset_at(date.0, date.1, date.2, h) - hour) % 24 == 0,
    ensures
        h >= 5 ==> eastern_date(up) == Some(date),
        h < 4 && is_date(date.0, date.1, date.2) ==> (eastern_date(up) matches Some(day) && is_date(
            day.0,
            day.1,
            day.2,
        ) && day_number(day.0, day.1, day.2) == day_number(date.0, date.1, date.2) - 1),
        ends_with(up, seq!['Z']) && minute_of(time) is Some ==> stamp_clock(up) == Some(
            show_clock(hour, minute_of(time)->0),
        ),
{
    if is_date(date.0, date.1, date.2) {
        law_prev_day_steps_back_one_day(date.0, date.1, date.2);
    }
    let moved = h + eastern_offset_at(date.0, date.1, date.2, h);
    assert(moved % 24 == hour);
}

/// What is read as a stamp is written as one: before its first `T` stand three numbers with a dash
/// between each two, and after it the time, which ends before the `Z`.
pub proof fn law_only_stamps_are_read(
    up: Seq<char>,
    date: (int, int, int),
    time: Seq<char>,
    t: int,
)
    requires
        stamp_parts(up) == Some((date, time)),
        0 <= t < up.len(),
        up[t] == 'T',
        forall|i: int| 0 <= i < t ==> up[i] != 'T',
    ensures
        ({
            let p = split_on(up.take(t), '-');
            &&& p.len() == 3
            &&& read_i32(p[0]) == Some(date.0)
            &&& read_u32(p[1]) == Some(date.1)
            &&& read_u32(p[2]) == Some(date.2)
        }),
        t + 1 + time.len() <= up.len(),
        up.subrange(t + 1, t + 1 + time.len()) == time,
        forall|i: int| t + 1 + time.len() <= i < up.len() ==> #[trigger] up[i] == 'Z',
        time.len() > 0 ==> time.last() != 'Z',
{
    lemma_char_found(up, 'T', t);
    let rest = up.skip(t + 1);
    law_stripping_takes_the_end_alone(rest, 'Z');
    assert(up.subrange(t + 1, t + 1 + time.len()) =~= rest.take(time.len() as int));
    assert forall|i: int| t + 1 + time.len() <= i < up.len() implies #[trigger] up[i] == 'Z' by {
        assert(rest[i - t - 1] == 'Z');
    }
}

/// A stamp whose hour cannot be read keeps its date and shows no time of its own; what is no stamp
/// has neither.
pub proof fn law_stamps_without_an_hour(up: Seq<char>)
    ensures
        stamp_parts(up) is None ==> eastern_date(up) is None && stamp_clock(up) is None,
        stamp_parts(up) matches Some((date, time)) ==> hour_of(time) is None ==> eastern_date(up)
            == Some(date) && stamp_clock(up) is None,
{
}

/// A time of day is an hour from 1 to 12, a colon, the minute in two digits or more, and `am` in
/// the first half of the day or `pm` in the second. Its numbers read back; those of the hour up to
/// twelve hours.
pub proof fn law_clock_reads_back(hour: int, minute: int)
    requires
        0 <= hour < 24,
        0 <= minute <= u32::MAX,
    ensures
        ({
            let s = show_clock(hour, minute);
            let n = s.len() as int;
            find(s, seq![':']) matches Some(c) && {
                &&& 1 <= c <= n - 5
                &&& read_u32(s.take(c)) matches Some(h) && 1 <= h <= 12 && (h == hour || h == hour
                    - 12 || h == hour + 12)
                &&& read_u32(s.subrange(c + 1, n - 2)) == Some(minute)
                &&& s[n - 2] == if hour < 12 {
                    'a'
                } else {
                    'p'
                }
                &&& s[n - 1] == 'm'
            }
        }),
{
    reveal_strlit(":");
    reveal_strlit("am");
    reveal_strlit("pm");
    let s = show_clock(hour, minute);
    let first = show_nat(clock_hour(hour));
    let c = first.len() as int;
    law_unsigned_reads_back(clock_hour(hour));
    law_two_digits_read_back(minute);
    lemma_show_nat(clock_hour(hour));
    assert forall|i: int| 0 <= i < c implies s[i] != ':' by {
        assert(is_digit(first[i]));
    }
    lemma_char_found(s, ':', c);
    assert(s.take(c) =~= first);
    assert(s.subrange(c + 1, s.len() - 2) =~= show_two_digits(minute));
}

/// A date is written as its month, its day and its year between slashes, and each reads back.
pub proof fn law_date_reads_back(date: (int, int, int))
    requires
        i32::MIN <= date.0 <= i32::MAX,
        0 <= date.1 <= u32::MAX,
        0 <= date.2 <= u32::MAX,
    ensures
        ({
            let p = split_on(show_date(date), '/');
            &&& p.len() == 3
            &&& read_u32(p[0]) == Some(date.1)
            &&& read_u32(p[1]) == Some(date.2)
            &&& read_i32(p[2]) == Some(date.0)
        }),
{
    reveal_strlit("/");
    let a = show_nat(date.1);
    let b = show_nat(date.2);
    let c = show_int(date.0);
    lemma_show_nat(date.1);
    lemma_show_nat(date.2);
    lemma_numeral_lacks(a);
    lemma_numeral_lacks(b);
    if date.0 < 0 {
        lemma_show_nat(-date.0);
        lemma_numeral_lacks(show_nat(-date.0));
        if c.contains('/') {
            let i = choose|i: int| 0 <= i < c.len() && c[i] == '/';
            assert(show_nat(-date.0)[i - 1] == '/');
        }
    } else {
        lemma_show_nat(date.0);
        lemma_numeral_lacks(c);
    }
    law_unsigned_reads_back(date.1);
    law_unsigned_reads_back(date.2);
    law_signed_reads_back(date.0);
    assert(show_date(date) =~= a.push('/') + b.push('/') + c);
    lemma_split_three(a, b, c, '/');
}

/// A plain time has its last word in small letters right behind what stands before it; a single
/// word is all in small letters.
pub proof fn law_plain_times_lose_a_blank(before: Seq<char>, last: Seq<char>)
    requires
        !last.contains(' '),
    ensures
        plain_clock(before + seq![' '] + last) == before + lowercase(last),
        plain_clock(last) == lowercase(last),
        ascii_plain_clock(before + seq![' '] + last) == before + ascii_small_all(last),
        ascii_plain_clock(last) == ascii_small_all(last),
{
    let t = before + seq![' '] + last;
    let n = before.len() as int;
    assert forall|i: int| n < i < t.len() implies #[trigger] t[i] != ' ' by {
        assert(last.contains(last[i - n - 1]));
    }
    assert forall|i: int| -1 < i < last.len() implies #[trigger] last[i] != ' ' by {
        assert(last.contains(last[i]));
    }
    law_last_place_of_a_character(t, ' ', n);
    law_last_place_of_a_character(last, ' ', -1);
    assert(t.take(n) =~= before);
    assert(t.skip(n + 1) =~= last);
}

/// A capital letter and its small letter stand 32 apart; no other ASCII character changes.
pub proof fn law_letters_change_their_size(s: Seq<char>, i: int)
    requires
        0 <= i < s.len(),
    ensures
        ascii_capitals(s).len() == s.len(),
        'a' <= s[i] <= 'z' ==> ascii_capitals(s)[i] as int == s[i] as int - 32,
        !('a' <= s[i] <= 'z') ==> ascii_capitals(s)[i] == s[i],
        ascii_small_all(s).len() == s.len(),
        'A' <= s[i] <= 'Z' ==> ascii_small_all(s)[i] as int == s[i] as int + 32,
        !('A' <= s[i] <= 'Z') ==> ascii_small_all(s)[i] == s[i],
{
}

/// Every stamp can be read: its numbers stay in range.
pub proof fn law_stamps_can_be_read(
    date: (Seq<char>, Seq<char>, Seq<char>),
    hour: Seq<char>,
    minute: Seq<char>,
)
    requires
        is_stamp(date, hour, minute),
    ensures
        date_in_range(stamp_of(date, hour, minute)),
        clock_in_range(stamp_of(date, hour, minute)),
{
    let up = stamp_of(date, hour, minute);
    law_stamps_are_read(date, hour, minute);
    lemma_digits_not_negative(date.0);
    lemma_digits_not_negative(hour);
}

/// A text without a `T` is no stamp, and can be read.
pub proof fn law_other_texts_can_be_read(up: Seq<char>)
    requires
        forall|i: int| 0 <= i < up.len() ==> #[trigger] up[i] != 'T',
    ensures
        stamp_parts(up) is None,
        date_in_range(up),
        clock_in_range(up),
{
    lemma_find_from(up, seq!['T'], 0);
    if let Some(p) = find(up, seq!['T']) {
        assert(up.subrange(p, p + 1)[0] == up[p]);
    }
}

/// A stamp is shown by the clock in Eastern time: the hour of the stamp moved by the offset, up to
/// whole days, and its minute. What is no stamp is shown as a plain time.
pub proof fn law_stamps_are_shown_in_eastern_time(
    t: Seq<char>,
    date: (Seq<char>, Seq<char>, Seq<char>),
    hour: Seq<char>,
    minute: Seq<char>,
    shown: int,
)
    requires
        is_stamp(date, hour, minute),
        0 <= shown < 24,
        ({
            let h = numeral_value(hour);
            let offset = eastern_offset_at(
                numeral_value(date.0),
                numeral_value(date.1),
                numeral_value(date.2),
                h,
            );
            (h + offset - shown) % 24 == 0
        }),
    ensures
        game_clock(t, stamp_of(date, hour, minute)) == show_clock(shown, numeral_value(minute)),
        ascii_capitals(t) == stamp_of(date, hour, minute) ==> ascii_game_clock(t) == show_clock(
            shown,
            numeral_value(minute),
        ),
        forall|other: Seq<char>|
            stamp_parts(other) is None ==> #[trigger] game_clock(t, other) == plain_clock(t),
        stamp_parts(ascii_capitals(t)) is None ==> ascii_game_clock(t) == ascii_plain_clock(t),
{
    let up = stamp_of(date, hour, minute);
    law_stamps_are_read(date, hour, minute);
    let (day, time) = stamp_parts(up)->0;
    law_unusual_hours(up, day, time, numeral_value(hour), shown);
}

/// The short date of a stamp is its Eastern date: month, day and year read back from it. What is no
/// stamp has none.
pub proof fn law_short_date_is_the_eastern_date(up: Seq<char>)
    ensures
        eastern_date(up) is None ==> short_date(up).len() == 0,
        eastern_date(up) matches Some(date) ==> i32::MIN <= date.0 <= i32::MAX && 0 <= date.1
            <= u32::MAX && 0 <= date.2 <= u32::MAX ==> ({
            let p = split_on(short_date(up), '/');
            &&& p.len() == 3
            &&& read_u32(p[0]) == Some(date.1)
            &&& read_u32(p[1]) == Some(date.2)
            &&& read_i32(p[2]) == Some(date.0)
        }),
{
    if let Some(date) = eastern_date(up) {
        if i32::MIN <= date.0 <= i32::MAX && 0 <= date.1 <= u32::MAX && 0 <= date.2 <= u32::MAX {
            law_date_reads_back(date);
        }
    }
}

} // verus!
