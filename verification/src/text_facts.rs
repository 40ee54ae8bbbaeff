//! Facts about lines, words, trimming and searching that the laws of the library rest on.

use vstd::prelude::*;

use crate::text::{
    blanks, contains, ends_with, find, is_space, join, lemma_contains_find, lemma_find_from,
    lemma_split_on_nonempty, lines, occurs_at, pad_left, pad_right, rfind_char, split_on,
    starts_with, strip_cr, strip_end, trim, trim_end, trim_start, word_parts, words,
};

verus! {

/// Every character of `s` is white space.
pub open spec fn all_space(s: Seq<char>) -> bool {
    forall|i: int| 0 <= i < s.len() ==> is_space(#[trigger] s[i])
}

/// No character of `s` is white space.
pub open spec fn no_space(s: Seq<char>) -> bool {
    forall|i: int| 0 <= i < s.len() ==> !is_space(#[trigger] s[i])
}

/// `s` does not end in a carriage return.
pub open spec fn no_cr_end(s: Seq<char>) -> bool {
    s.len() > 0 ==> s.last() != '\r'
}

/// Splitting two texts one after the other: the last piece of the first and the first piece of
/// the second become one.
pub proof fn lemma_split_concat(a: Seq<char>, b: Seq<char>, c: char)
    ensures
        split_on(a + b, c) == split_on(a, c).drop_last().push(
            split_on(a, c).last() + split_on(b, c)[0],
        ) + split_on(b, c).drop_first(),
    decreases b.len(),
{
    lemma_split_on_nonempty(a, c);
    lemma_split_on_nonempty(b, c);
    let pa = split_on(a, c);
    if b.len() == 0 {
        assert(a + b =~= a);
        assert(pa.last() + split_on(b, c)[0] =~= pa.last());
        assert(pa.drop_last().push(pa.last()) + split_on(b, c).drop_first() =~= pa);
    } else {
        let d = b.drop_last();
        lemma_split_concat(a, d, c);
        lemma_split_on_nonempty(d, c);
        let pd = split_on(d, c);
        assert((a + b).drop_last() =~= a + d);
        assert((a + b).last() == b.last());
        let before = split_on(a + d, c);
        if b.last() == c {
            assert(split_on(a + b, c) =~= pa.drop_last().push(pa.last() + split_on(b, c)[0])
                + split_on(b, c).drop_first());
        } else if pd.len() == 1 {
            assert(before =~= pa.drop_last().push(pa.last() + pd[0]));
            assert(before.last() =~= pa.last() + pd[0]);
            assert(before.last().push(b.last()) =~= pa.last() + pd[0].push(b.last()));
            assert(split_on(b, c) =~= seq![pd[0].push(b.last())]);
            assert(split_on(a + b, c) =~= pa.drop_last().push(pa.last() + split_on(b, c)[0])
                + split_on(b, c).drop_first());
        } else {
            assert(before.last() == pd.last());
            assert(split_on(a + b, c) =~= pa.drop_last().push(pa.last() + split_on(b, c)[0])
                + split_on(b, c).drop_first());
        }
    }
}

/// A text that does not hold `c` is one piece.
pub proof fn lemma_split_plain(s: Seq<char>, c: char)
    requires
        !s.contains(c),
    ensures
        split_on(s, c) == seq![s],
    decreases s.len(),
{
    if s.len() > 0 {
        assert(s[s.len() - 1] != c);
        assert forall|i: int| 0 <= i < s.drop_last().len() implies s.drop_last()[i] != c by {
            assert(s.drop_last()[i] == s[i]);
        }
        lemma_split_plain(s.drop_last(), c);
        assert(s.drop_last().push(s.last()) =~= s);
        assert(seq![s.drop_last()].drop_last().push(s) =~= seq![s]);
    } else {
        assert(s =~= Seq::<char>::empty());
    }
}

/// No piece holds the character that separates them.
pub proof fn lemma_split_pieces(s: Seq<char>, c: char, i: int)
    requires
        0 <= i < split_on(s, c).len(),
    ensures
        !split_on(s, c)[i].contains(c),
        forall|d: char| split_on(s, c)[i].contains(d) ==> s.contains(d),
    decreases s.len(),
{
    if s.len() > 0 {
        lemma_split_on_nonempty(s.drop_last(), c);
        let before = split_on(s.drop_last(), c);
        let now = split_on(s, c);
        assert forall|d: char| s.drop_last().contains(d) implies s.contains(d) by {
            let k = choose|k: int| 0 <= k < s.drop_last().len() && s.drop_last()[k] == d;
            assert(s[k] == d);
        }
        if s.last() == c {
            if i < before.len() {
                lemma_split_pieces(s.drop_last(), c, i);
            }
        } else if i < before.len() - 1 {
            lemma_split_pieces(s.drop_last(), c, i);
        } else {
            lemma_split_pieces(s.drop_last(), c, before.len() - 1);
            assert(now[i] == before.last().push(s.last()));
            assert forall|d: char| now[i].contains(d) implies s.contains(d) && d != c by {
                let k = choose|k: int| 0 <= k < now[i].len() && now[i][k] == d;
                if k < before.last().len() {
                    assert(before.last()[k] == d);
                } else {
                    assert(s[s.len() - 1] == d);
                }
            }
        }
    }
}

/// The lines of a text whose first part ends a line are those of its two parts.
pub proof fn lemma_lines_concat(a: Seq<char>, b: Seq<char>)
    requires
        a.len() == 0 || a.last() == '\n',
    ensures
        lines(a + b) == lines(a) + lines(b),
{
    lemma_split_concat(a, b, '\n');
    lemma_split_on_nonempty(a, '\n');
    lemma_split_on_nonempty(b, '\n');
    let pa = split_on(a, '\n');
    let pb = split_on(b, '\n');
    assert(pa.last() =~= Seq::<char>::empty());
    assert(pa.last() + pb[0] =~= pb[0]);
    assert(split_on(a + b, '\n') =~= pa.drop_last() + pb);
    let strip = |l: Seq<char>| strip_cr(l);
    assert((pa.drop_last() + pb).drop_last().map_values(strip) =~= pa.drop_last().map_values(strip)
        + pb.drop_last().map_values(strip));
    assert(lines(a + b) =~= lines(a) + lines(b));
}

/// The last piece of a text ends as the text does.
proof fn lemma_split_last(s: Seq<char>, c: char)
    requires
        s.len() > 0,
        s.last() != c,
    ensures
        split_on(s, c).last().len() > 0,
        split_on(s, c).last().last() == s.last(),
{
    lemma_split_on_nonempty(s.drop_last(), c);
}

/// A line feed after the last line of a text adds no line.
pub proof fn lemma_lines_ended(s: Seq<char>)
    requires
        s.len() > 0,
        s.last() != '\n',
        s.last() != '\r',
    ensures
        lines(s.push('\n')) == lines(s),
{
    let p = split_on(s, '\n');
    assert(s.push('\n').drop_last() =~= s);
    assert(split_on(s.push('\n'), '\n') =~= p.push(Seq::empty()));
    lemma_split_on_nonempty(s, '\n');
    lemma_split_last(s, '\n');
    let strip = |l: Seq<char>| strip_cr(l);
    assert(p.push(Seq::empty()).drop_last() =~= p);
    assert(p.map_values(strip) =~= p.drop_last().map_values(strip).push(p.last()));
}

/// A text without line feeds, once it is ended, is one line.
pub proof fn lemma_one_line(l: Seq<char>)
    requires
        !l.contains('\n'),
    ensures
        lines(l.push('\n')) == seq![strip_cr(l)],
{
    lemma_split_plain(l, '\n');
    assert(l.push('\n').drop_last() =~= l);
    assert(split_on(l.push('\n'), '\n') =~= seq![l, Seq::empty()]);
    assert(seq![l, Seq::<char>::empty()].drop_last() =~= seq![l]);
    let strip = |x: Seq<char>| strip_cr(x);
    assert(seq![l].map_values(strip) =~= seq![strip_cr(l)]);
}

/// A text without line feeds is one line, or none where it is empty.
pub proof fn lemma_last_line(l: Seq<char>)
    requires
        !l.contains('\n'),
        l.len() > 0,
    ensures
        lines(l) == seq![l],
{
    lemma_split_plain(l, '\n');
    let strip = |x: Seq<char>| strip_cr(x);
    assert(seq![l].drop_last().map_values(strip) =~= Seq::<Seq<char>>::empty());
    assert(lines(l) =~= seq![l]);
}

/// Lines that are joined and ended are the lines of the text.
proof fn lemma_joined_lines_ended(ls: Seq<Seq<char>>)
    requires
        ls.len() > 0,
        forall|i: int|
            0 <= i < ls.len() ==> !(#[trigger] ls[i]).contains('\n') && no_cr_end(ls[i]),
    ensures
        lines(join(ls, "\n"@).push('\n')) == ls,
    decreases ls.len(),
{
    reveal_strlit("\n");
    if ls.len() == 1 {
        lemma_one_line(ls[0]);
        assert(seq![ls[0]] =~= ls);
    } else {
        let d = ls.drop_last();
        assert forall|i: int| 0 <= i < d.len() implies !(#[trigger] d[i]).contains('\n')
            && no_cr_end(d[i]) by {
            assert(d[i] == ls[i]);
        }
        lemma_joined_lines_ended(d);
        let head = join(d, "\n"@).push('\n');
        lemma_one_line(ls[ls.len() - 1]);
        lemma_lines_concat(head, ls.last().push('\n'));
        assert(join(ls, "\n"@).push('\n') =~= head + ls.last().push('\n'));
        assert(d + seq![ls.last()] =~= ls);
    }
}

/// Lines that are joined are the lines of the text.
pub proof fn lemma_joined_lines(ls: Seq<Seq<char>>)
    requires
        ls.len() > 0,
        ls.last().len() > 0,
        forall|i: int|
            0 <= i < ls.len() ==> !(#[trigger] ls[i]).contains('\n') && no_cr_end(ls[i]),
    ensures
        lines(join(ls, "\n"@)) == ls,
{
    reveal_strlit("\n");
    assert(!ls[ls.len() - 1].contains('\n'));
    lemma_last_line(ls.last());
    if ls.len() == 1 {
        assert(seq![ls[0]] =~= ls);
    } else {
        let d = ls.drop_last();
        assert forall|i: int| 0 <= i < d.len() implies !(#[trigger] d[i]).contains('\n')
            && no_cr_end(d[i]) by {
            assert(d[i] == ls[i]);
        }
        lemma_joined_lines_ended(d);
        let head = join(d, "\n"@).push('\n');
        lemma_lines_concat(head, ls.last());
        assert(join(ls, "\n"@) =~= head + ls.last());
        assert(d + seq![ls.last()] =~= ls);
    }
}

/// Lines that are joined are the pieces of the text between its line feeds.
pub proof fn lemma_split_joined(ls: Seq<Seq<char>>)
    requires
        ls.len() > 0,
        forall|i: int| 0 <= i < ls.len() ==> !(#[trigger] ls[i]).contains('\n'),
    ensures
        split_on(join(ls, "\n"@), '\n') == ls,
    decreases ls.len(),
{
    reveal_strlit("\n");
    assert(!ls[ls.len() - 1].contains('\n'));
    lemma_split_plain(ls.last(), '\n');
    if ls.len() == 1 {
        assert(seq![ls[0]] =~= ls);
    } else {
        let d = ls.drop_last();
        assert forall|i: int| 0 <= i < d.len() implies !(#[trigger] d[i]).contains('\n') by {
            assert(d[i] == ls[i]);
        }
        lemma_split_joined(d);
        let head = join(d, "\n"@).push('\n');
        assert(head.drop_last() =~= join(d, "\n"@));
        assert(split_on(head, '\n') =~= d.push(Seq::empty()));
        lemma_split_concat(head, ls.last(), '\n');
        assert(join(ls, "\n"@) =~= head + ls.last());
        assert(d.push(Seq::empty()).drop_last() =~= d);
        assert(Seq::<char>::empty() + ls.last() =~= ls.last());
        assert(split_on(join(ls, "\n"@), '\n') =~= ls);
    }
}

/// No line holds a line feed.
pub proof fn lemma_lines_hold_no_feed(s: Seq<char>, i: int)
    requires
        0 <= i < lines(s).len(),
    ensures
        !lines(s)[i].contains('\n'),
{
    lemma_split_on_nonempty(s, '\n');
    let p = split_on(s, '\n');
    lemma_split_pieces(s, '\n', i);
    if i < p.len() - 1 {
        assert(lines(s)[i] == strip_cr(p[i]));
        assert forall|k: int| 0 <= k < strip_cr(p[i]).len() implies strip_cr(p[i])[k] != '\n' by {
            assert(p[i][k] != '\n');
        }
    }
}

/// The last line of a text that ends in no white space ends as the text does.
pub proof fn lemma_last_of_lines(s: Seq<char>)
    requires
        s.len() > 0,
        s.last() != '\n',
    ensures
        lines(s).len() > 0,
        lines(s).last().len() > 0,
        lines(s).last().last() == s.last(),
{
    lemma_split_on_nonempty(s, '\n');
    lemma_split_last(s, '\n');
}

/// The words before a position where white space stands, and after it, are the words of the whole.
pub proof fn lemma_words_concat(a: Seq<char>, b: Seq<char>)
    requires
        a.len() == 0 || is_space(a.last()),
    ensures
        word_parts(a).1.len() == 0,
        word_parts(a + b) == (words(a) + word_parts(b).0, word_parts(b).1),
        words(a + b) == words(a) + words(b),
    decreases b.len(),
{
    if b.len() == 0 {
        assert(a + b =~= a);
        assert(words(a) + word_parts(b).0 =~= words(a));
        assert(word_parts(a).1 =~= Seq::<char>::empty());
    } else {
        lemma_words_concat(a, b.drop_last());
        assert((a + b).drop_last() =~= a + b.drop_last());
        let (done, open) = word_parts(b.drop_last());
        if is_space(b.last()) && open.len() > 0 {
            assert((words(a) + done).push(open) =~= words(a) + done.push(open));
        }
    }
    let (done, open) = word_parts(b);
    if open.len() > 0 {
        assert((words(a) + done).push(open) =~= words(a) + done.push(open));
    }
}

/// White space after a text adds no word.
pub proof fn lemma_words_space_after(s: Seq<char>, t: Seq<char>)
    requires
        all_space(t),
    ensures
        words(s + t) == words(s),
    decreases t.len(),
{
    if t.len() == 0 {
        assert(s + t =~= s);
    } else {
        let d = t.drop_last();
        assert forall|i: int| 0 <= i < d.len() implies is_space(#[trigger] d[i]) by {
            assert(d[i] == t[i]);
        }
        lemma_words_space_after(s, d);
        assert((s + t).drop_last() =~= s + d);
        assert((s + t).last() == t[t.len() - 1]);
        assert(is_space(t[t.len() - 1]));
    }
}

/// White space before a text adds no word.
pub proof fn lemma_words_space_before(t: Seq<char>, s: Seq<char>)
    requires
        all_space(t),
    ensures
        words(t + s) == words(s),
{
    if t.len() > 0 {
        assert(is_space(t[t.len() - 1]));
    }
    lemma_words_concat(t, s);
    lemma_words_space_after(Seq::empty(), t);
    assert(Seq::<char>::empty() + t =~= t);
    assert(words(Seq::<char>::empty()) =~= Seq::<Seq<char>>::empty());
    assert(Seq::<Seq<char>>::empty() + words(s) =~= words(s));
}

/// A text without white space is one word.
pub proof fn lemma_one_word(s: Seq<char>)
    requires
        no_space(s),
        s.len() > 0,
    ensures
        words(s) == seq![s],
{
    lemma_open_word(s);
    assert(Seq::<Seq<char>>::empty().push(s) =~= seq![s]);
}

proof fn lemma_open_word(s: Seq<char>)
    requires
        no_space(s),
    ensures
        word_parts(s) == (Seq::<Seq<char>>::empty(), s),
    decreases s.len(),
{
    if s.len() > 0 {
        let d = s.drop_last();
        assert forall|i: int| 0 <= i < d.len() implies !is_space(#[trigger] d[i]) by {
            assert(d[i] == s[i]);
        }
        lemma_open_word(d);
        assert(!is_space(s[s.len() - 1]));
        assert(d.push(s.last()) =~= s);
    } else {
        assert(s =~= Seq::<char>::empty());
    }
}

/// White space at the end of a text is trimmed.
pub proof fn lemma_trim_end_space(s: Seq<char>, t: Seq<char>)
    requires
        all_space(t),
    ensures
        trim_end(s + t) == trim_end(s),
    decreases t.len(),
{
    if t.len() == 0 {
        assert(s + t =~= s);
    } else {
        let d = t.drop_last();
        assert forall|i: int| 0 <= i < d.len() implies is_space(#[trigger] d[i]) by {
            assert(d[i] == t[i]);
        }
        lemma_trim_end_space(s, d);
        assert((s + t).drop_last() =~= s + d);
        assert((s + t).last() == t[t.len() - 1]);
        assert(is_space(t[t.len() - 1]));
    }
}

/// What trimming the end leaves is a start of the text that does not end in white space, and what
/// it takes is white space.
pub proof fn lemma_trim_end(s: Seq<char>)
    ensures
        trim_end(s).len() <= s.len(),
        trim_end(s) == s.take(trim_end(s).len() as int),
        trim_end(s).len() > 0 ==> !is_space(trim_end(s).last()),
        all_space(s.skip(trim_end(s).len() as int)),
    decreases s.len(),
{
    if s.len() > 0 && is_space(s.last()) {
        let d = s.drop_last();
        lemma_trim_end(d);
        let n = trim_end(s).len() as int;
        assert(d.take(n) =~= s.take(n));
        assert forall|i: int| 0 <= i < s.skip(n).len() implies is_space(
            #[trigger] s.skip(n)[i],
        ) by {
            if i < d.skip(n).len() {
                assert(is_space(d.skip(n)[i]));
            }
        }
    } else {
        assert(s.take(s.len() as int) =~= s);
        assert(s.skip(s.len() as int) =~= Seq::<char>::empty());
    }
}

/// A text after one that is not all white space keeps what trimming the start leaves of it.
pub proof fn lemma_trim_start_append(s: Seq<char>, t: Seq<char>)
    ensures
        trim_start(s).len() > 0 ==> trim_start(s + t) == trim_start(s) + t,
        trim_start(s).len() == 0 ==> trim_start(s + t) == trim_start(t),
    decreases s.len(),
{
    if s.len() == 0 {
        assert(s + t =~= t);
    } else {
        assert((s + t)[0] == s[0]);
        if is_space(s[0]) {
            assert((s + t).drop_first() =~= s.drop_first() + t);
            lemma_trim_start_append(s.drop_first(), t);
        }
    }
}

/// White space alone is trimmed away.
pub proof fn lemma_trim_start_space(t: Seq<char>)
    requires
        all_space(t),
    ensures
        trim_start(t).len() == 0,
    decreases t.len(),
{
    if t.len() > 0 {
        assert(is_space(t[0]));
        let d = t.drop_first();
        assert forall|i: int| 0 <= i < d.len() implies is_space(#[trigger] d[i]) by {
            assert(d[i] == t[i + 1]);
        }
        lemma_trim_start_space(d);
    }
}

/// White space after a text does not matter to what trimming leaves.
pub proof fn lemma_trim_space_after(s: Seq<char>, t: Seq<char>)
    requires
        all_space(t),
    ensures
        trim(s + t) == trim(s),
{
    lemma_trim_start_append(s, t);
    if trim_start(s).len() > 0 {
        lemma_trim_end_space(trim_start(s), t);
    } else {
        lemma_trim_start_space(t);
        assert(trim_start(s) =~= Seq::<char>::empty());
        assert(trim_start(s + t) =~= Seq::<char>::empty());
    }
}

/// A text that ends in no white space is not blank.
pub proof fn lemma_not_blank(s: Seq<char>)
    requires
        s.len() > 0,
        !is_space(s.last()),
    ensures
        trim(s).len() > 0,
        trim_end(s) == s,
{
    lemma_trim_start_append(s.drop_last(), seq![s.last()]);
    assert(s.drop_last() + seq![s.last()] =~= s);
    assert(trim_start(s).len() > 0 && trim_start(s).last() == s.last());
}

/// A run of blanks is white space.
pub proof fn lemma_blanks(n: int)
    ensures
        all_space(blanks(n)),
{
}

/// A text that cannot reach over a character does not stand across it.
pub proof fn lemma_contains_across(a: Seq<char>, c: char, b: Seq<char>, pat: Seq<char>)
    requires
        !pat.contains(c),
        pat.len() > 0,
    ensures
        contains(a.push(c) + b, pat) <==> (contains(a, pat) || contains(b, pat)),
{
    let s = a.push(c) + b;
    let n = a.len() as int;
    if contains(s, pat) {
        let i = choose|i: int| occurs_at(s, i, pat);
        if i + pat.len() <= n {
            assert(a.subrange(i, i + pat.len()) =~= s.subrange(i, i + pat.len()));
            assert(occurs_at(a, i, pat));
        } else if i > n {
            assert(b.subrange(i - n - 1, i - n - 1 + pat.len()) =~= s.subrange(i, i + pat.len()));
            assert(occurs_at(b, i - n - 1, pat));
        } else {
            assert(s.subrange(i, i + pat.len())[n - i] == c);
            assert(pat[n - i] == c);
        }
    }
    if contains(a, pat) {
        let i = choose|i: int| occurs_at(a, i, pat);
        assert(a.subrange(i, i + pat.len()) =~= s.subrange(i, i + pat.len()));
        assert(occurs_at(s, i, pat));
    }
    if contains(b, pat) {
        let i = choose|i: int| occurs_at(b, i, pat);
        assert(b.subrange(i, i + pat.len()) =~= s.subrange(i + n + 1, i + n + 1 + pat.len()));
        assert(occurs_at(s, i + n + 1, pat));
    }
}

/// A text without `c` holds no pattern that starts with `c`.
pub proof fn lemma_lacks(s: Seq<char>, pat: Seq<char>)
    requires
        pat.len() > 0,
        !s.contains(pat[0]),
    ensures
        !contains(s, pat),
{
    if contains(s, pat) {
        let i = choose|i: int| occurs_at(s, i, pat);
        assert(s.subrange(i, i + pat.len())[0] == s[i]);
    }
}

/// Blanks after a text add no occurrence of a pattern without blanks.
pub proof fn lemma_contains_pad_right(s: Seq<char>, width: int, pat: Seq<char>)
    requires
        !pat.contains(' '),
        pat.len() > 0,
    ensures
        contains(pad_right(s, width), pat) <==> contains(s, pat),
{
    if s.len() < width {
        let k = width - s.len();
        assert(pad_right(s, width) =~= s.push(' ') + blanks(k - 1));
        lemma_contains_across(s, ' ', blanks(k - 1), pat);
        assert(pat.contains(pat[0]));
        lemma_lacks(blanks(k - 1), pat);
    }
}

/// Blanks before a text add no occurrence of a pattern without blanks.
pub proof fn lemma_contains_pad_left(s: Seq<char>, width: int, pat: Seq<char>)
    requires
        !pat.contains(' '),
        pat.len() > 0,
    ensures
        contains(pad_left(s, width), pat) <==> contains(s, pat),
{
    if s.len() < width {
        let k = width - s.len();
        assert(pad_left(s, width) =~= blanks(k - 1).push(' ') + s);
        lemma_contains_across(blanks(k - 1), ' ', s, pat);
        assert(pat.contains(pat[0]));
        lemma_lacks(blanks(k - 1), pat);
    }
}

/// A pattern that stands in a text stands in a longer one.
pub proof fn lemma_contains_inside(a: Seq<char>, s: Seq<char>, b: Seq<char>, pat: Seq<char>)
    requires
        contains(s, pat),
    ensures
        contains(a + s + b, pat),
{
    let i = choose|i: int| occurs_at(s, i, pat);
    let l = a + s + b;
    let n = a.len() as int;
    assert(l.subrange(n + i, n + i + pat.len()) =~= s.subrange(i, i + pat.len()));
    assert(occurs_at(l, n + i, pat));
}

/// Where a piece of a text stands in it; the last piece ends where the text does.
proof fn lemma_piece_position(s: Seq<char>, c: char, i: int) -> (p: int)
    requires
        0 <= i < split_on(s, c).len(),
    ensures
        occurs_at(s, p, split_on(s, c)[i]),
        i == split_on(s, c).len() - 1 ==> p + split_on(s, c)[i].len() == s.len(),
    decreases s.len(),
{
    if s.len() == 0 {
        assert(s.subrange(0, 0) =~= Seq::<char>::empty());
        0
    } else {
        let d = s.drop_last();
        lemma_split_on_nonempty(d, c);
        let before = split_on(d, c);
        let n = before.len() as int;
        if i < n - 1 || (i == n - 1 && s.last() == c) {
            let p = lemma_piece_position(d, c, i);
            let m = before[i].len();
            assert(s.subrange(p, p + m) =~= d.subrange(p, p + m));
            p
        } else if s.last() == c {
            assert(s.subrange(s.len() as int, s.len() as int) =~= Seq::<char>::empty());
            s.len() as int
        } else {
            let p = lemma_piece_position(d, c, n - 1);
            let piece = before.last();
            assert(d.subrange(p, p + piece.len()) == piece);
            assert(s.subrange(p, s.len() as int) =~= piece.push(s.last()));
            p
        }
    }
}

/// What stands in a line of a text stands in the text.
pub proof fn lemma_line_inside(s: Seq<char>, i: int, pat: Seq<char>)
    requires
        0 <= i < lines(s).len(),
        contains(lines(s)[i], pat),
    ensures
        contains(s, pat),
{
    lemma_split_on_nonempty(s, '\n');
    let piece = split_on(s, '\n')[i];
    let l = lines(s)[i];
    let p = lemma_piece_position(s, '\n', i);
    assert(piece =~= Seq::empty() + l + piece.skip(l.len() as int));
    lemma_contains_inside(Seq::empty(), l, piece.skip(l.len() as int), pat);
    assert(s =~= s.take(p) + piece + s.skip(p + piece.len()));
    lemma_contains_inside(s.take(p), piece, s.skip(p + piece.len()), pat);
}

/// The lines of a text before the one that it ends in, given by the length of their text.
pub proof fn lemma_last_line_start(s: Seq<char>) -> (n: int)
    ensures
        0 <= n <= s.len(),
        n > 0 ==> s[n - 1] == '\n',
        !s.skip(n).contains('\n'),
    decreases s.len(),
{
    if s.len() == 0 || s.last() == '\n' {
        s.len() as int
    } else {
        let d = s.drop_last();
        let n = lemma_last_line_start(d);
        assert forall|i: int| 0 <= i < s.skip(n).len() implies s.skip(n)[i] != '\n' by {
            if i < d.skip(n).len() {
                assert(d.skip(n)[i] == s.skip(n)[i]);
            }
        }
        n
    }
}

/// Trimming the end of a text whose last part is not blank trims that part.
pub proof fn lemma_trim_end_append(a: Seq<char>, b: Seq<char>)
    requires
        trim_end(b).len() > 0,
    ensures
        trim_end(a + b) == a + trim_end(b),
    decreases b.len(),
{
    assert((a + b).last() == b.last());
    if is_space(b.last()) {
        assert((a + b).drop_last() =~= a + b.drop_last());
        lemma_trim_end_append(a, b.drop_last());
    }
}

/// White space after a text adds no occurrence of a pattern without white space.
pub proof fn lemma_contains_space_after(s: Seq<char>, t: Seq<char>, pat: Seq<char>)
    requires
        all_space(t),
        no_space(pat),
        pat.len() > 0,
    ensures
        contains(s + t, pat) <==> contains(s, pat),
{
    if t.len() == 0 {
        assert(s + t =~= s);
    } else {
        let c = t[0];
        assert(is_space(c));
        if pat.contains(c) {
            let i = choose|i: int| 0 <= i < pat.len() && pat[i] == c;
            assert(!is_space(pat[i]));
        }
        assert(s + t =~= s.push(c) + t.skip(1));
        lemma_contains_across(s, c, t.skip(1), pat);
        assert(!t.skip(1).contains(pat[0])) by {
            if t.skip(1).contains(pat[0]) {
                let i = choose|i: int| 0 <= i < t.skip(1).len() && t.skip(1)[i] == pat[0];
                assert(is_space(t[i + 1]));
            }
        }
        lemma_lacks(t.skip(1), pat);
    }
}

/// A word that a text starts with starts a word of the text.
proof fn lemma_first_word(w: Seq<char>, rest: Seq<char>)
    requires
        w.len() > 0,
        no_space(w),
    ensures
        ({
            let (done, open) = word_parts(w + rest);
            done.len() > 0 && done[0].len() > 0 && done[0][0] == w[0] || done.len() == 0
                && open.len() > 0 && open[0] == w[0]
        }),
    decreases rest.len(),
{
    if rest.len() == 0 {
        assert(w + rest =~= w);
        lemma_open_word(w);
    } else {
        lemma_first_word(w, rest.drop_last());
        assert((w + rest).drop_last() =~= w + rest.drop_last());
    }
}

/// Each word of a start of a text starts as a word of the text does.
pub proof fn lemma_words_of_start(s: Seq<char>, k: int, i: int) -> (j: int)
    requires
        0 <= k <= s.len(),
        0 <= i < words(s.take(k)).len(),
    ensures
        0 <= j < words(s).len(),
        words(s.take(k))[i].len() > 0,
        words(s)[j].len() > 0,
        words(s)[j][0] == words(s.take(k))[i][0],
{
    let a = s.take(k);
    let n = lemma_open_start(a);
    let done = a.take(n);
    let open = a.skip(n);
    let rest = s.skip(k);
    assert(a =~= done + open);
    assert(s =~= done + (open + rest));
    lemma_words_concat(done, open);
    lemma_words_concat(done, open + rest);
    if i < words(done).len() {
        lemma_words_nonempty(done, i);
        i
    } else {
        assert(open.len() > 0) by {
            if open.len() == 0 {
                assert(open =~= Seq::<char>::empty());
                assert(words(open).len() == 0);
            }
        }
        lemma_one_word(open);
        lemma_first_word(open, rest);
        assert(words(s.take(k))[i] == open);
        assert(words(s)[i] == words(open + rest)[0]);
        i
    }
}

/// Where the word that a text ends in starts.
proof fn lemma_open_start(s: Seq<char>) -> (n: int)
    ensures
        0 <= n <= s.len(),
        n > 0 ==> is_space(s.take(n).last()),
        no_space(s.skip(n)),
    decreases s.len(),
{
    if s.len() == 0 || is_space(s.last()) {
        assert(s.take(s.len() as int) =~= s);
        s.len() as int
    } else {
        let d = s.drop_last();
        let n = lemma_open_start(d);
        assert(d.take(n) =~= s.take(n));
        assert forall|i: int| 0 <= i < s.skip(n).len() implies !is_space(
            #[trigger] s.skip(n)[i],
        ) by {
            if i < d.skip(n).len() {
                assert(!is_space(d.skip(n)[i]));
                assert(d.skip(n)[i] == s.skip(n)[i]);
            }
        }
        n
    }
}

/// No word is empty.
proof fn lemma_words_nonempty(s: Seq<char>, i: int)
    requires
        0 <= i < words(s).len(),
    ensures
        words(s)[i].len() > 0,
    decreases s.len(),
{
    if s.len() > 0 {
        let d = s.drop_last();
        let (done, open) = word_parts(d);
        if i < done.len() {
            lemma_words_nonempty(d, i);
            assert(words(d)[i] == done[i]);
        }
    }
}

/// A pattern stands where each of its characters does.
pub proof fn law_pattern_stands_whole(s: Seq<char>, i: int, pat: Seq<char>)
    ensures
        occurs_at(s, i, pat) <==> 0 <= i && i + pat.len() <= s.len() && (forall|j: int|
            0 <= j < pat.len() ==> s[i + j] == #[trigger] pat[j]),
{
    if 0 <= i && i + pat.len() <= s.len() {
        let part = s.subrange(i, i + pat.len());
        if occurs_at(s, i, pat) {
            assert forall|j: int| 0 <= j < pat.len() implies s[i + j] == #[trigger] pat[j] by {
                assert(part[j] == s[i + j]);
            }
        } else if forall|j: int| 0 <= j < pat.len() ==> s[i + j] == #[trigger] pat[j] {
            assert(part =~= pat);
        }
    }
}

/// A text holds a pattern that stands somewhere in it, which is found there or before, and the text
/// starts or ends with it where it stands at that end.
pub proof fn law_search_is_complete(s: Seq<char>, pat: Seq<char>, i: int)
    requires
        0 <= i,
        i + pat.len() <= s.len(),
        forall|j: int| 0 <= j < pat.len() ==> s[i + j] == #[trigger] pat[j],
    ensures
        contains(s, pat),
        find(s, pat) matches Some(p) && 0 <= p <= i && (forall|j: int|
            0 <= j < pat.len() ==> s[p + j] == #[trigger] pat[j]),
        i == 0 ==> starts_with(s, pat),
        i + pat.len() == s.len() ==> ends_with(s, pat),
{
    law_pattern_stands_whole(s, i, pat);
    lemma_find_from(s, pat, 0);
    if let Some(p) = find(s, pat) {
        law_pattern_stands_whole(s, p, pat);
    }
}

/// What a search finds stands there.
pub proof fn law_search_is_sound(s: Seq<char>, pat: Seq<char>)
    ensures
        contains(s, pat) <==> find(s, pat) is Some,
        find(s, pat) matches Some(p) ==> 0 <= p && p + pat.len() <= s.len() && (forall|j: int|
            0 <= j < pat.len() ==> s[p + j] == #[trigger] pat[j]),
        starts_with(s, pat) ==> pat.len() <= s.len() && (forall|j: int|
            0 <= j < pat.len() ==> s[j] == #[trigger] pat[j]),
        ends_with(s, pat) ==> pat.len() <= s.len() && (forall|j: int|
            0 <= j < pat.len() ==> s[s.len() - pat.len() + j] == #[trigger] pat[j]),
{
    lemma_contains_find(s, pat);
    lemma_find_from(s, pat, 0);
    law_pattern_stands_whole(s, 0, pat);
    law_pattern_stands_whole(s, s.len() - pat.len(), pat);
    if let Some(p) = find(s, pat) {
        law_pattern_stands_whole(s, p, pat);
    }
}

proof fn lemma_trim_start_skips(s: Seq<char>) -> (k: int)
    ensures
        0 <= k <= s.len(),
        trim_start(s) == s.skip(k),
        forall|i: int| 0 <= i < k ==> is_space(#[trigger] s[i]),
        k < s.len() ==> !is_space(s[k]),
    decreases s.len(),
{
    if s.len() > 0 && is_space(s[0]) {
        let d = s.drop_first();
        let k = lemma_trim_start_skips(d);
        assert(d.skip(k) =~= s.skip(k + 1));
        assert forall|i: int| 0 <= i < k + 1 implies is_space(#[trigger] s[i]) by {
            if i > 0 {
                assert(d[i - 1] == s[i]);
            }
        }
        k + 1
    } else {
        assert(s.skip(0) =~= s);
        0
    }
}

/// Trimming takes the white space at both ends and nothing else: what is left is a part of the text
/// with white space alone before and after it, and neither starts nor ends with white space.
pub proof fn law_trim_takes_white_space_alone(s: Seq<char>)
    ensures
        exists|k: int|
            {
                &&& 0 <= k
                &&& k + trim(s).len() <= s.len()
                &&& #[trigger] s.subrange(k, k + trim(s).len()) == trim(s)
                &&& forall|i: int|
                    0 <= i < s.len() && (i < k || i >= k + trim(s).len()) ==> is_space(
                        #[trigger] s[i],
                    )
            },
        trim(s).len() > 0 ==> !is_space(trim(s)[0]) && !is_space(trim(s).last()),
{
    let k = lemma_trim_start_skips(s);
    let t = s.skip(k);
    lemma_trim_end(t);
    let n = trim(s).len() as int;
    assert(s.subrange(k, k + n) =~= t.take(n));
    assert forall|i: int| 0 <= i < s.len() && (i < k || i >= k + n) implies is_space(
        #[trigger] s[i],
    ) by {
        if i >= k + n {
            assert(is_space(t.skip(n)[i - k - n]));
            assert(t.skip(n)[i - k - n] == s[i]);
        }
    }
    if n > 0 {
        assert(trim(s)[0] == t[0]);
    }
}

proof fn lemma_join_push(parts: Seq<Seq<char>>, x: Seq<char>, sep: Seq<char>)
    requires
        parts.len() > 0,
    ensures
        join(parts.push(x), sep) == join(parts, sep) + sep + x,
{
    assert(parts.push(x).drop_last() =~= parts);
}

/// Joining two lists of texts joins each, with the separator between them; one text is joined to
/// itself.
pub proof fn law_join_of_two_lists(a: Seq<Seq<char>>, b: Seq<Seq<char>>, sep: Seq<char>)
    requires
        a.len() > 0,
        b.len() > 0,
    ensures
        join(a + b, sep) == join(a, sep) + sep + join(b, sep),
        a.len() == 1 ==> join(a, sep) == a[0],
    decreases b.len(),
{
    let d = b.drop_last();
    if d.len() == 0 {
        assert(a + b =~= a.push(b[0]));
        lemma_join_push(a, b[0], sep);
    } else {
        law_join_of_two_lists(a, d, sep);
        assert(a + b =~= (a + d).push(b.last()));
        assert(b =~= d.push(b.last()));
        lemma_join_push(a + d, b.last(), sep);
        lemma_join_push(d, b.last(), sep);
        assert(join(a + b, sep) =~= join(a, sep) + sep + join(b, sep));
    }
}

/// The pieces of a text, joined with what separates them, are the text, and none of them holds it.
pub proof fn law_pieces_join_to_the_text(s: Seq<char>, c: char)
    ensures
        join(split_on(s, c), seq![c]) == s,
        forall|i: int|
            0 <= i < split_on(s, c).len() ==> !(#[trigger] split_on(s, c)[i]).contains(c),
    decreases s.len(),
{
    let p = split_on(s, c);
    assert forall|i: int| 0 <= i < p.len() implies !(#[trigger] p[i]).contains(c) by {
        lemma_split_pieces(s, c, i);
    }
    if s.len() > 0 {
        let d = s.drop_last();
        let before = split_on(d, c);
        law_pieces_join_to_the_text(d, c);
        lemma_split_on_nonempty(d, c);
        if s.last() == c {
            lemma_join_push(before, Seq::empty(), seq![c]);
            assert(join(p, seq![c]) =~= s);
        } else {
            let first = before.drop_last();
            let longer = before.last().push(s.last());
            assert(before =~= first.push(before.last()));
            assert(p == first.push(longer));
            if first.len() > 0 {
                lemma_join_push(first, before.last(), seq![c]);
                lemma_join_push(first, longer, seq![c]);
            } else {
                assert(before[0] == before.last());
                assert(p.len() == 1 && p[0] == longer);
                assert(join(p, seq![c]) == longer);
                assert(join(before, seq![c]) == before[0]);
            }
            assert(s =~= d.push(s.last()));
            assert(join(p, seq![c]) =~= s);
        }
    } else {
        assert(join(p, seq![c]) =~= s);
    }
}

/// A text that is padded to a width has that width, or its own where that is greater: it stands at
/// one end, and blanks fill the rest.
pub proof fn law_padding_fills_with_blanks(s: Seq<char>, width: int)
    ensures
        pad_right(s, width).len() == (if s.len() < width {
            width
        } else {
            s.len() as int
        }),
        pad_left(s, width).len() == pad_right(s, width).len(),
        forall|i: int|
            0 <= i < pad_right(s, width).len() ==> #[trigger] pad_right(s, width)[i] == (if i
                < s.len() {
                s[i]
            } else {
                ' '
            }),
        ({
            let gap = pad_left(s, width).len() - s.len();
            forall|i: int|
                0 <= i < pad_left(s, width).len() ==> #[trigger] pad_left(s, width)[i] == (if i
                    >= gap {
                    s[i - gap]
                } else {
                    ' '
                })
        }),
{
}

/// The words of a text, one after the other, are its characters without the white space; none is
/// empty.
pub proof fn law_words_hold_the_text(s: Seq<char>)
    ensures
        join(words(s), Seq::empty()) == s.filter(|c: char| !is_space(c)),
        forall|i: int| 0 <= i < words(s).len() ==> (#[trigger] words(s)[i]).len() > 0,
{
    lemma_word_parts_hold(s);
    let (done, open) = word_parts(s);
    if open.len() > 0 && done.len() > 0 {
        lemma_join_push(done, open, Seq::empty());
        assert(join(done, Seq::empty()) + Seq::<char>::empty() + open =~= join(done, Seq::empty())
            + open);
    } else if open.len() > 0 {
        assert(done.push(open) =~= seq![open]);
        assert(join(done, Seq::empty()) + open =~= open);
    } else {
        assert(join(done, Seq::empty()) + open =~= join(done, Seq::empty()));
    }
    assert forall|i: int| 0 <= i < words(s).len() implies (#[trigger] words(s)[i]).len() > 0 by {
        lemma_words_nonempty(s, i);
    }
}

proof fn lemma_word_parts_hold(s: Seq<char>)
    ensures
        join(word_parts(s).0, Seq::empty()) + word_parts(s).1 == s.filter(|c: char| !is_space(c)),
    decreases s.len(),
{
    let keep = |c: char| !is_space(c);
    reveal(Seq::filter);
    if s.len() == 0 {
        assert(join(word_parts(s).0, Seq::empty()) + word_parts(s).1 =~= s.filter(keep));
    } else {
        let d = s.drop_last();
        lemma_word_parts_hold(d);
        let (done, open) = word_parts(d);
        let none = Seq::<char>::empty();
        let whole = join(done, none) + open;
        if !is_space(s.last()) {
            assert(join(done, none) + open.push(s.last()) =~= whole.push(s.last()));
        } else if open.len() > 0 {
            if done.len() > 0 {
                lemma_join_push(done, open, none);
                assert(join(done, none) + none + open + none =~= whole);
            } else {
                assert(done.push(open) =~= seq![open]);
                assert(join(seq![open], none) == open);
                assert(open + none =~= whole);
            }
        } else {
            assert(join(done, none) + none =~= whole);
        }
    }
}

/// The last place of a character is one after which it does not stand again.
pub proof fn law_last_place_of_a_character(s: Seq<char>, c: char, p: int)
    requires
        -1 <= p < s.len(),
        p >= 0 ==> s[p] == c,
        forall|i: int| p < i < s.len() ==> #[trigger] s[i] != c,
    ensures
        p >= 0 ==> rfind_char(s, c) == Some(p),
        p < 0 ==> rfind_char(s, c) is None,
    decreases s.len(),
{
    if s.len() > 0 && p < s.len() - 1 {
        let d = s.drop_last();
        assert(s[s.len() - 1] != c);
        assert forall|i: int| p < i < d.len() implies #[trigger] d[i] != c by {
            assert(s[i] != c);
        }
        law_last_place_of_a_character(d, c, p);
    }
}

/// Stripping the end takes every one of the characters that stand there, and no other.
pub proof fn law_stripping_takes_the_end_alone(s: Seq<char>, c: char)
    ensures
        ({
            let r = strip_end(s, c);
            &&& r.len() <= s.len()
            &&& r == s.take(r.len() as int)
            &&& forall|i: int| r.len() <= i < s.len() ==> #[trigger] s[i] == c
            &&& r.len() > 0 ==> r.last() != c
        }),
    decreases s.len(),
{
    if s.len() > 0 && s.last() == c {
        let d = s.drop_last();
        law_stripping_takes_the_end_alone(d, c);
        let r = strip_end(s, c);
        assert(d.take(r.len() as int) =~= s.take(r.len() as int));
        assert forall|i: int| r.len() <= i < s.len() implies #[trigger] s[i] == c by {
            if i < d.len() {
                assert(d[i] == s[i]);
            }
        }
    } else {
        assert(s.take(s.len() as int) =~= s);
    }
}

/// The lines of a text are its pieces between line feeds. One that a line feed ends has no carriage
/// return before it; what stands after the last line feed is a line as it is, or none where it is
/// empty.
pub proof fn law_lines_are_the_pieces(s: Seq<char>, i: int)
    requires
        0 <= i < lines(s).len(),
    ensures
        ({
            let p = split_on(s, '\n');
            &&& lines(s).len() == p.len() - if p.last().len() == 0 {
                1int
            } else {
                0int
            }
            &&& i == p.len() - 1 ==> lines(s)[i] == p[i]
            &&& i < p.len() - 1 ==> if p[i].len() > 0 && p[i].last() == '\r' {
                p[i] == lines(s)[i].push('\r')
            } else {
                p[i] == lines(s)[i]
            }
        }),
{
    lemma_split_on_nonempty(s, '\n');
    let p = split_on(s, '\n')[i];
    if p.len() > 0 && p.last() == '\r' {
        assert(p =~= p.drop_last().push('\r'));
    }
}

} // verus!
