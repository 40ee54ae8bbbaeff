//! The matchup predictor of a game page: where each team's chance to win stands in the page, and
//! which of the numbers found there are taken.

use vstd::prelude::*;
use vstd::slice::slice_subrange;

use crate::bytes::width;
use crate::numbers::{decimal, is_decimal};
use crate::odds_page::{
    element_views, page_fits, select_elements, selected, Element, ElementView, PAGE_LIMIT,
};
use crate::text::{
    chars_of, extend_str, find_from, find_text_from, lemma_find_from, occurs_at, starts_with,
    string_of, strings, text_starts_with, trim, trim_of,
};

verus! {

/// The bits of the binary32 number 100.
pub const HUNDRED_BITS: u32 = 0x42c8_0000;

/// The bits of the binary32 number 1.
pub const ONE_BITS: u32 = 0x3f80_0000;

/// The address of a game page: `game_url` itself, or a path below the site.
pub open spec fn page_address(game_url: Seq<char>) -> Seq<char> {
    if starts_with(game_url, "http"@) {
        game_url
    } else {
        "https://www.espn.com"@ + game_url
    }
}

/// What stands before a projection in the page.
pub open spec fn projection_mark() -> Seq<char> {
    "\"gameProjection\":\""@
}

/// `found`, and after it the number that stands at `start` up to the next quotation mark, where
/// what stands there is one.
pub open spec fn with_projection(
    html: Seq<char>,
    start: int,
    found: Seq<Seq<char>>,
) -> Seq<Seq<char>> {
    match find_from(html, seq!['"'], start) {
        Some(end) => if is_decimal(html.subrange(start, end)) {
            found.push(html.subrange(start, end))
        } else {
            found
        },
        None => found,
    }
}

/// `found`, and after it the projections from position `pos` on, until there are two. There is no
/// answer where the search would go on from a position past the end of the page, or from inside a
/// character.
pub open spec fn projections_from(
    html: Seq<char>,
    pos: int,
    found: Seq<Seq<char>>,
) -> Option<Seq<Seq<char>>>
    decreases html.len() - pos,
    when 0 <= pos
{
    match find_from(html, projection_mark(), pos) {
        None => Some(found),
        Some(p) => {
            let start = p + projection_mark().len();
            let now = with_projection(html, start, found);
            if now.len() >= 2 {
                Some(now)
            } else if start < html.len() && width(html[start]) == 1 {
                proof {
                    lemma_find_from(html, projection_mark(), pos);
                }
                projections_from(html, start + 1, now)
            } else {
                None
            }
        },
    }
}

/// The first two projections of a page, or as many as there are.
pub open spec fn projections(html: Seq<char>) -> Option<Seq<Seq<char>>> {
    projections_from(html, 0, Seq::empty())
}

/// `s` without each `c`.
pub open spec fn without_char(s: Seq<char>, c: char) -> Seq<char>
    decreases s.len(),
{
    if s.len() == 0 {
        Seq::empty()
    } else if s.last() == c {
        without_char(s.drop_last(), c)
    } else {
        without_char(s.drop_last(), c).push(s.last())
    }
}

/// The text of a percentage without its percent sign.
pub open spec fn percentage(text: Seq<char>) -> Seq<char> {
    trim(without_char(text, '%'))
}

/// The numbers around the percent signs of the page, in order.
pub open spec fn percentages(signs: Seq<ElementView>) -> Seq<Seq<char>>
    decreases signs.len(),
{
    if signs.len() == 0 {
        Seq::empty()
    } else {
        let before = percentages(signs.drop_last());
        match signs.last().parent_text {
            Some(text) => if is_decimal(percentage(text)) {
                before.push(percentage(text))
            } else {
                before
            },
            None => before,
        }
    }
}

/// The bits of a binary32 number greater than 0 and less than 100.
pub open spec fn is_percent(bits: u32) -> bool {
    0 < bits < HUNDRED_BITS
}

/// Those of the numbers that are greater than 0 and less than 100.
pub open spec fn percents(bits: Seq<u32>) -> Seq<u32> {
    bits.filter(|b: u32| is_percent(b))
}

/// The address of a game page.
pub fn page_url(game_url: &str) -> (r: String)
    ensures
        r@ == page_address(game_url@),
{
    let cs = chars_of(game_url);
    if text_starts_with(&cs, &chars_of("http")) {
        game_url.to_string()
    } else {
        let mut out = chars_of("https://www.espn.com");
        extend_str(&mut out, game_url);
        string_of(&out)
    }
}

fn is_narrow(c: char) -> (r: bool)
    ensures
        r == (width(c) == 1),
{
    c as u32 <= 0x7f
}

/// The first two projections of a page, or nothing where the search cannot go on.
pub fn try_extract_game_projections(html: &str) -> (r: Option<Vec<String>>)
    ensures
        match r {
            Some(v) => projections(html@) == Some(strings(v@)),
            None => projections(html@) is None,
        },
{
    let page = chars_of(html);
    let mark = chars_of("\"gameProjection\":\"");
    let quote: [char; 1] = ['"'];
    assert(quote@ =~= seq!['"']);
    let mut found: Vec<String> = Vec::new();
    let mut pos: usize = 0;
    assert(strings(found@) =~= Seq::<Seq<char>>::empty());
    loop
        invariant
            page@ == html@,
            mark@ == projection_mark(),
            quote@ == seq!['"'],
            pos <= page@.len(),
            found@.len() < 2,
            projections(html@) == projections_from(html@, pos as int, strings(found@)),
        decreases page@.len() - pos,
    {
        proof {
            lemma_find_from(html@, projection_mark(), pos as int);
        }
        let n: usize = page.len();
        let p: usize = match find_text_from(&page, &mark, pos) {
            Some(p) => p,
            None => return Some(found),
        };
        let start: usize = p + mark.len();
        proof {
            lemma_find_from(html@, seq!['"'], start as int);
        }
        let ghost before = strings(found@);
        if let Some(end) = find_text_from(&page, &quote, start) {
            let value = slice_subrange(&page, start, end);
            if decimal(value) {
                let ghost was = found@;
                let text = string_of(value);
                let ghost one = text;
                found.push(text);
                assert(strings(found@) =~= strings(was).push(one@));
            }
        }
        assert(strings(found@) == with_projection(html@, start as int, before));
        if found.len() >= 2 {
            return Some(found);
        }
        if start >= n || !is_narrow(page[start]) {
            return None;
        }
        pos = start + 1;
    }
}

/// The first two projections of a page: the texts of the form `"gameProjection":"75.8"` whose
/// value is a number.
pub fn extract_game_projections(html: &str) -> (r: Vec<String>)
    requires
        projections(html@) is Some,
    ensures
        projections(html@) == Some(strings(r@)),
{
    try_extract_game_projections(html).unwrap()
}

fn drop_char(s: &[char], c: char) -> (r: Vec<char>)
    ensures
        r@ == without_char(s@, c),
{
    let mut out: Vec<char> = Vec::new();
    for i in 0..s.len()
        invariant
            out@ == without_char(s@.take(i as int), c),
    {
        assert(s@.take(i + 1).drop_last() =~= s@.take(i as int));
        if s[i] != c {
            out.push(s[i]);
        }
    }
    assert(s@.take(s@.len() as int) =~= s@);
    out
}

/// The numbers around the percent signs that were found in a page.
pub fn percentages_of(signs: &Vec<Element>) -> (r: Vec<String>)
    ensures
        strings(r@) == percentages(element_views(signs@)),
{
    let mut out: Vec<String> = Vec::new();
    let ghost all = element_views(signs@);
    assert(strings(out@) =~= percentages(all.take(0)));
    for i in 0..signs.len()
        invariant
            all == element_views(signs@),
            strings(out@) == percentages(all.take(i as int)),
    {
        assert(all.take(i + 1).drop_last() =~= all.take(i as int));
        assert(all.take(i + 1).last() == signs@[i as int]@);
        if let Some(text) = &signs[i].parent_text {
            let cs = chars_of(text.as_str());
            let rest = drop_char(&cs, '%');
            let value = trim_of(&rest);
            if decimal(value) {
                let ghost was = out@;
                let one = string_of(value);
                let ghost shown = one@;
                out.push(one);
                assert(strings(out@) =~= strings(was).push(shown));
            }
        }
    }
    assert(all.take(all.len() as int) =~= all);
    out
}

/// The numbers that the predictor of a page shows as percentages.
pub fn dom_percentages(html: &str) -> (r: Vec<String>)
    requires
        html@.len() <= PAGE_LIMIT,
    ensures
        strings(r@) == percentages(selected(html@, ".matchupPredictor__suffix"@, "class"@)),
{
    let signs = select_elements(html, ".matchupPredictor__suffix", "class");
    percentages_of(&signs)
}

/// The first two numbers greater than 0 and less than 100, where there are two. The numbers are
/// given by their binary32 bits.
pub fn first_two_percents(bits: &Vec<u32>) -> (r: Option<(u32, u32)>)
    ensures
        r == (if percents(bits@).len() >= 2 {
            Some((percents(bits@)[0], percents(bits@)[1]))
        } else {
            None
        }),
{
    let ghost keep = |b: u32| is_percent(b);
    let mut first: Option<u32> = None;
    assert(bits@.take(0).filter(keep) =~= Seq::<u32>::empty());
    for i in 0..bits.len()
        invariant
            keep == (|b: u32| is_percent(b)),
            match first {
                Some(b) => bits@.take(i as int).filter(keep) == seq![b],
                None => bits@.take(i as int).filter(keep) == Seq::<u32>::empty(),
            },
    {
        let b: u32 = bits[i];
        proof {
            let ghost now = bits@.take(i + 1);
            assert(now.drop_last() =~= bits@.take(i as int));
            reveal(Seq::filter);
            assert(now.filter(keep) == if is_percent(b) {
                bits@.take(i as int).filter(keep).push(b)
            } else {
                bits@.take(i as int).filter(keep)
            });
        }
        if 0 < b && b < HUNDRED_BITS {
            match first {
                Some(a) => {
                    proof {
                        let now = bits@.take(i + 1);
                        let rest = bits@.skip(i + 1);
                        assert(bits@ =~= now + rest);
                        Seq::filter_distributes_over_add(now, rest, keep);
                        assert(now.filter(keep) == seq![a].push(b));
                    }
                    return Some((a, b));
                },
                None => {
                    first = Some(b);
                    assert(bits@.take(i + 1).filter(keep) =~= seq![b]);
                },
            }
        }
    }
    assert(bits@.take(bits@.len() as int) =~= bits@);
    None
}

/// Tells whether a binary32 number that is not negative, given by its bits, is less than 1: how
/// far the sum of two chances may be from 100.
pub fn is_small_deviation(bits: u32) -> (r: bool)
    ensures
        r == (bits < ONE_BITS),
{
    bits < ONE_BITS
}

/// What a game page says of the chances of the away and the home team.
pub enum Prediction {
    /// The first two projections.
    Projected(String, String),
    /// The numbers shown as percentages, where there are no two projections.
    Shown(Vec<String>),
}

/// The predictor of a page can be read: the search for projections comes to an end, and the page is
/// short enough to be parsed where it has no two of them.
pub open spec fn can_read_predictor(html: Seq<char>) -> bool {
    projections(html) matches Some(v) && (v.len() >= 2 || html.len() <= PAGE_LIMIT)
}

/// Reads the predictor of a game page: its projections where there are two of them, else the
/// numbers that it shows as percentages.
pub fn read_predictor(html: &str) -> (r: Prediction)
    requires
        can_read_predictor(html@),
    ensures
        match r {
            Prediction::Projected(a, b) => projections(html@)->0 == seq![a@, b@],
            Prediction::Shown(v) => projections(html@)->0.len() < 2 && strings(v@) == percentages(
                selected(html@, ".matchupPredictor__suffix"@, "class"@),
            ),
        },
{
    let found = extract_game_projections(html);
    proof {
        law_projections_are_two_numbers(html@);
    }
    assert(strings(found@).len() == found@.len());
    if found.len() >= 2 {
        let r = Prediction::Projected(found[0].clone(), found[1].clone());
        assert(strings(found@) =~= seq![found@[0]@, found@[1]@]);
        r
    } else {
        Prediction::Shown(dom_percentages(html))
    }
}

/// Tells whether `read_predictor` can read a page.
pub fn predictor_fits(html: &str) -> (r: bool)
    ensures
        r == can_read_predictor(html@),
{
    match try_extract_game_projections(html) {
        Some(found) => {
            assert(strings(found@).len() == found@.len());
            found.len() >= 2 || page_fits(html)
        },
        None => false,
    }
}

/// `read_predictor`, or nothing where the predictor cannot be read.
pub fn try_read_predictor(html: &str) -> (r: Option<Prediction>)
    ensures
        match r {
            Some(Prediction::Projected(a, b)) => projections(html@) == Some(seq![a@, b@]),
            Some(Prediction::Shown(v)) => can_read_predictor(html@) && projections(html@)->0.len()
                < 2 && strings(v@) == percentages(
                selected(html@, ".matchupPredictor__suffix"@, "class"@),
            ),
            None => !can_read_predictor(html@),
        },
{
    if predictor_fits(html) {
        Some(read_predictor(html))
    } else {
        None
    }
}

/// The numbers after the marks that stand at position `p` or later, each up to the next quotation
/// mark, in order.
pub open spec fn numbers_from(html: Seq<char>, p: int) -> Seq<Seq<char>>
    decreases html.len() - p,
{
    if p >= html.len() {
        Seq::empty()
    } else if occurs_at(html, p, projection_mark()) {
        with_projection(html, p + projection_mark().len(), Seq::empty()) + numbers_from(
            html,
            p + 1,
        )
    } else {
        numbers_from(html, p + 1)
    }
}

/// The first two of a list, or as many as there are.
pub open spec fn first_two(s: Seq<Seq<char>>) -> Seq<Seq<char>> {
    if s.len() > 2 {
        s.take(2)
    } else {
        s
    }
}

/// A mark starts after the character that follows the mark before it.
pub open spec fn marks_stand_apart(html: Seq<char>) -> bool {
    forall|p: int, q: int|
        p < q && #[trigger] occurs_at(html, p, projection_mark()) && #[trigger] occurs_at(
            html,
            q,
            projection_mark(),
        ) ==> q > p + projection_mark().len()
}

/// Where no mark stands, no number is found.
proof fn lemma_no_marks(html: Seq<char>, p: int, q: int)
    requires
        0 <= p <= q,
        forall|i: int| p <= i < q ==> !occurs_at(html, i, projection_mark()),
    ensures
        numbers_from(html, p) == numbers_from(html, q),
    decreases q - p,
{
    if p < q {
        lemma_no_marks(html, p + 1, q);
        assert(!occurs_at(html, p, projection_mark()));
    }
}

proof fn lemma_projections_in_order(html: Seq<char>, pos: int, found: Seq<Seq<char>>)
    requires
        0 <= pos,
        found.len() < 2,
        marks_stand_apart(html),
    ensures
        projections_from(html, pos, found) matches Some(v) ==> v == first_two(
            found + numbers_from(html, pos),
        ),
    decreases html.len() - pos,
{
    let mark = projection_mark();
    lemma_find_from(html, mark, pos);
    match find_from(html, mark, pos) {
        None => {
            let end = if pos < html.len() {
                html.len() as int
            } else {
                pos
            };
            lemma_no_marks(html, pos, end);
            assert(found + numbers_from(html, pos) =~= found);
        },
        Some(p) => {
            reveal_strlit("\"gameProjection\":\"");
            let start = p + mark.len();
            let one = with_projection(html, start, Seq::empty());
            let now = with_projection(html, start, found);
            assert(now =~= found + one);
            lemma_no_marks(html, pos, p);
            assert forall|i: int| p + 1 <= i < start + 1 implies !occurs_at(html, i, mark) by {
                if occurs_at(html, i, mark) {
                    assert(occurs_at(html, p, mark));
                }
            }
            lemma_no_marks(html, p + 1, start + 1);
            let rest = numbers_from(html, start + 1);
            assert(found + numbers_from(html, pos) =~= now + rest);
            if now.len() >= 2 {
                assert(first_two(now + rest) =~= now);
            } else if start < html.len() && width(html[start]) == 1 {
                lemma_projections_in_order(html, start + 1, now);
            }
        },
    }
}

/// The projections of a page are the first two numbers that stand between a mark and the next
/// quotation mark. A page is left out where a mark starts inside another one or right after it: the
/// search goes on past it.
pub proof fn law_projections_are_the_first_two(html: Seq<char>)
    requires
        marks_stand_apart(html),
    ensures
        projections(html) matches Some(v) ==> v == first_two(numbers_from(html, 0)),
{
    lemma_projections_in_order(html, 0, Seq::empty());
    assert(Seq::<Seq<char>>::empty() + numbers_from(html, 0) =~= numbers_from(html, 0));
}

proof fn lemma_two_projections(html: Seq<char>, pos: int, found: Seq<Seq<char>>)
    requires
        0 <= pos,
        found.len() < 2,
        forall|i: int| 0 <= i < found.len() ==> is_decimal(#[trigger] found[i]),
    ensures
        projections_from(html, pos, found) matches Some(v) ==> v.len() <= 2 && (forall|i: int|
            0 <= i < v.len() ==> is_decimal(#[trigger] v[i])),
    decreases html.len() - pos,
{
    lemma_find_from(html, projection_mark(), pos);
    if let Some(p) = find_from(html, projection_mark(), pos) {
        let start = p + projection_mark().len();
        let now = with_projection(html, start, found);
        assert forall|i: int| 0 <= i < now.len() implies is_decimal(#[trigger] now[i]) by {
            if i < found.len() {
                assert(now[i] == found[i]);
            }
        }
        if now.len() < 2 && start < html.len() && width(html[start]) == 1 {
            lemma_two_projections(html, start + 1, now);
        }
    }
}

/// Of a page no more than two projections are taken, and each writes a number.
pub proof fn law_projections_are_two_numbers(html: Seq<char>)
    ensures
        projections(html) matches Some(v) ==> v.len() <= 2 && (forall|i: int|
            0 <= i < v.len() ==> is_decimal(#[trigger] v[i])),
{
    lemma_two_projections(html, 0, Seq::empty());
}

/// What is left without a character is the text with every one of them taken out, and the others in
/// their order.
pub proof fn law_only_the_character_goes(s: Seq<char>, c: char)
    ensures
        without_char(s, c) == s.filter(|x: char| x != c),
    decreases s.len(),
{
    reveal(Seq::filter);
    if s.len() > 0 {
        law_only_the_character_goes(s.drop_last(), c);
    }
}

/// The numbers of two lists of percent signs are those of the first followed by those of the
/// second; one sign gives the text around it without percent signs and outer white space, where
/// that writes a number.
pub proof fn law_percentages_follow_the_signs(a: Seq<ElementView>, b: Seq<ElementView>)
    ensures
        percentages(a + b) == percentages(a) + percentages(b),
        a.len() == 1 ==> percentages(a) == match a[0].parent_text {
            Some(text) => if is_decimal(trim(text.filter(|x: char| x != '%'))) {
                seq![trim(text.filter(|x: char| x != '%'))]
            } else {
                Seq::empty()
            },
            None => Seq::empty(),
        },
        a.len() == 0 ==> percentages(a) == Seq::<Seq<char>>::empty(),
    decreases b.len(),
{
    if a.len() == 1 {
        let none = Seq::<Seq<char>>::empty();
        assert(percentages(a.drop_last()) == none);
        if let Some(text) = a[0].parent_text {
            law_only_the_character_goes(text, '%');
            assert(none.push(percentage(text)) =~= seq![percentage(text)]);
        }
    }
    if b.len() == 0 {
        assert(a + b =~= a);
        assert(percentages(a) + percentages(b) =~= percentages(a));
    } else {
        law_percentages_follow_the_signs(a, b.drop_last());
        assert((a + b).drop_last() =~= a + b.drop_last());
        assert(percentages(a + b) =~= percentages(a) + percentages(b));
    }
}

/// The two chances of a page are the first two of its numbers, wherever they stand, that are
/// greater than 0 and less than 100.
pub proof fn law_chances_are_the_first_two(bits: Seq<u32>, i: int, j: int)
    requires
        0 <= i < j < bits.len(),
        0 < bits[i] < 0x42c8_0000,
        0 < bits[j] < 0x42c8_0000,
        forall|k: int|
            0 <= k < j && k != i ==> #[trigger] bits[k] == 0 || bits[k] >= 0x42c8_0000,
    ensures
        percents(bits).len() >= 2,
        percents(bits)[0] == bits[i],
        percents(bits)[1] == bits[j],
{
    let keep = |b: u32| is_percent(b);
    let a = bits.take(i);
    let b = bits.subrange(i + 1, j);
    let c = bits.skip(j + 1);
    let x = seq![bits[i]];
    let y = seq![bits[j]];
    assert forall|k: int| 0 <= k < a.len() implies !keep(#[trigger] a[k]) by {
        assert(bits[k] == 0 || bits[k] >= 0x42c8_0000);
    }
    assert forall|k: int| 0 <= k < b.len() implies !keep(#[trigger] b[k]) by {
        assert(bits[i + 1 + k] == 0 || bits[i + 1 + k] >= 0x42c8_0000);
    }
    lemma_none_kept(a);
    lemma_none_kept(b);
    lemma_one_kept(bits[i]);
    lemma_one_kept(bits[j]);
    assert(bits =~= a + (x + (b + (y + c))));
    Seq::filter_distributes_over_add(a, x + (b + (y + c)), keep);
    Seq::filter_distributes_over_add(x, b + (y + c), keep);
    Seq::filter_distributes_over_add(b, y + c, keep);
    Seq::filter_distributes_over_add(y, c, keep);
    assert(percents(bits) =~= x + (y + c.filter(keep)));
}

proof fn lemma_none_kept(bits: Seq<u32>)
    requires
        forall|k: int| 0 <= k < bits.len() ==> !is_percent(#[trigger] bits[k]),
    ensures
        percents(bits) == Seq::<u32>::empty(),
    decreases bits.len(),
{
    reveal(Seq::filter);
    if bits.len() > 0 {
        let d = bits.drop_last();
        assert forall|k: int| 0 <= k < d.len() implies !is_percent(#[trigger] d[k]) by {
            assert(!is_percent(bits[k]));
        }
        assert(!is_percent(bits[bits.len() - 1]));
        lemma_none_kept(d);
    }
}

proof fn lemma_one_kept(b: u32)
    requires
        is_percent(b),
    ensures
        percents(seq![b]) == seq![b],
{
    reveal(Seq::filter);
    let one = seq![b];
    assert(one.drop_last() =~= Seq::<u32>::empty());
    assert(percents(one.drop_last()) =~= Seq::<u32>::empty());
    assert(percents(one) =~= one);
}

/// No other number is a chance.
pub proof fn law_chances_lie_between_0_and_100(bits: Seq<u32>, b: u32)
    ensures
        percents(bits).contains(b) <==> bits.contains(b) && 0 < b < 0x42c8_0000,
{
    let keep = |x: u32| is_percent(x);
    if percents(bits).contains(b) {
        let k = choose|k: int| 0 <= k < percents(bits).len() && percents(bits)[k] == b;
        bits.lemma_filter_pred(keep, k);
        bits.lemma_filter_contains_rev(keep, b);
    }
    if bits.contains(b) && 0 < b < 0x42c8_0000 {
        let k = choose|k: int| 0 <= k < bits.len() && bits[k] == b;
        bits.lemma_filter_contains(keep, k);
    }
}

/// The page of a game is at its own address where that names its protocol; else that address stands
/// behind the name of the site.
pub proof fn law_page_address_ends_with_the_game(game_url: Seq<char>)
    ensures
        game_url.len() >= 4 && game_url.take(4) == seq!['h', 't', 't', 'p'] ==> page_address(
            game_url,
        ) == game_url,
        !(game_url.len() >= 4 && game_url.take(4) == seq!['h', 't', 't', 'p']) ==> {
            let n = "https://www.espn.com"@.len() as int;
            &&& page_address(game_url).len() == n + game_url.len()
            &&& page_address(game_url).take(n) == "https://www.espn.com"@
            &&& page_address(game_url).skip(n) == game_url
        },
{
    reveal_strlit("http");
    let h = seq!['h', 't', 't', 'p'];
    assert("http"@ =~= h);
    if game_url.len() >= 4 {
        assert(game_url.subrange(0, 4) =~= game_url.take(4));
    }
    let n = "https://www.espn.com"@.len() as int;
    let whole = "https://www.espn.com"@ + game_url;
    assert(whole.take(n) =~= "https://www.espn.com"@);
    assert(whole.skip(n) =~= game_url);
}

/// The number behind a mark is what stands up to the next quotation mark, and it counts where it
/// writes a number.
pub proof fn law_number_ends_at_the_quotation_mark(
    html: Seq<char>,
    start: int,
    end: int,
    found: Seq<Seq<char>>,
)
    requires
        0 <= start <= end <= html.len(),
        forall|i: int| start <= i < end ==> #[trigger] html[i] != '"',
        end < html.len() ==> html[end] == '"',
    ensures
        end < html.len() && is_decimal(html.subrange(start, end)) ==> with_projection(
            html,
            start,
            found,
        ) == found.push(html.subrange(start, end)),
        end == html.len() || !is_decimal(html.subrange(start, end)) ==> with_projection(
            html,
            start,
            found,
        ) == found,
{
    let mark = seq!['"'];
    lemma_find_from(html, mark, start);
    if let Some(p) = find_from(html, mark, start) {
        assert(html.subrange(p, p + 1)[0] == html[p]);
    }
    if end < html.len() {
        assert(html.subrange(end, end + 1) =~= mark);
        assert(occurs_at(html, end, mark));
    }
}

/// The search for projections comes to an end in every page where an ASCII character follows each
/// mark.
pub proof fn law_search_comes_to_an_end(html: Seq<char>)
    requires
        forall|p: int| #[trigger]
            occurs_at(html, p, projection_mark()) ==> p + projection_mark().len() < html.len()
                && html[p + projection_mark().len()] as u32 <= 0x7f,
    ensures
        projections(html) is Some,
        html.len() <= 0x1fff_ffff ==> can_read_predictor(html),
{
    lemma_search_ends(html, 0, Seq::empty());
}

proof fn lemma_search_ends(html: Seq<char>, pos: int, found: Seq<Seq<char>>)
    requires
        0 <= pos,
        forall|p: int| #[trigger]
            occurs_at(html, p, projection_mark()) ==> p + projection_mark().len() < html.len()
                && html[p + projection_mark().len()] as u32 <= 0x7f,
    ensures
        projections_from(html, pos, found) is Some,
    decreases html.len() - pos,
{
    let mark = projection_mark();
    lemma_find_from(html, mark, pos);
    if let Some(p) = find_from(html, mark, pos) {
        let start = p + mark.len();
        assert(occurs_at(html, p, mark));
        assert(width(html[start]) == 1);
        lemma_search_ends(html, start + 1, with_projection(html, start, found));
    }
}

/// Of what has been found nothing is lost: what a mark adds stands behind it.
pub proof fn law_projections_come_behind_each_other(
    html: Seq<char>,
    start: int,
    found: Seq<Seq<char>>,
)
    ensures
        with_projection(html, start, found) == found + with_projection(html, start, Seq::empty()),
{
    assert(with_projection(html, start, found) =~= found + with_projection(
        html,
        start,
        Seq::empty(),
    ));
}

} // verus!
