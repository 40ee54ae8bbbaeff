//! Team names and moneylines as the odds page shows them.

use vstd::prelude::*;
use vstd::slice::slice_subrange;

use crate::schedule::all_ascii;
use crate::text::{
    chars_of, is_space, starts_with, string_of, text_starts_with, texts, trim, trim_of, words,
    words_of,
};
use crate::text_facts::law_trim_takes_white_space_alone;

verus! {

/// The last word before position `k` starts again there, and it is not the only thing before it:
/// a blank stands before `k`.
pub open spec fn repeats_at(t: Seq<char>, k: int) -> bool {
    let left = words(t.take(k));
    left.len() > 0 && starts_with(t.skip(k), left.last()) && t.take(k).contains(' ')
}

/// The first position inside `t`, at or after `k`, where a word starts again.
pub open spec fn first_repeat(t: Seq<char>, k: int) -> Option<int>
    decreases t.len() - k,
{
    if k >= t.len() {
        None
    } else if repeats_at(t, k) {
        Some(k)
    } else {
        first_repeat(t, k + 1)
    }
}

/// A team name without the nickname and the abbreviation that follow it.
pub open spec fn cleaned(raw: Seq<char>) -> Seq<char> {
    let t = trim(raw);
    match first_repeat(t, 1) {
        Some(k) => trim(t.take(k)),
        None => t,
    }
}

/// The name can be cut: what is searched for the place to cut is ASCII.
pub open spec fn can_clean(raw: Seq<char>) -> bool {
    let t = trim(raw);
    match first_repeat(t, 1) {
        Some(k) => all_ascii(t.take(k)),
        None => all_ascii(t),
    }
}

pub proof fn lemma_first_repeat(t: Seq<char>, k: int)
    ensures
        match first_repeat(t, k) {
            Some(p) => k <= p < t.len() && repeats_at(t, p) && (forall|j: int|
                k <= j < p ==> !#[trigger] repeats_at(t, j)),
            None => forall|j: int| k <= j < t.len() ==> !#[trigger] repeats_at(t, j),
        },
    decreases t.len() - k,
{
    if k < t.len() && !repeats_at(t, k) {
        lemma_first_repeat(t, k + 1);
    }
}

fn has_blank(s: &[char]) -> (r: bool)
    ensures
        r == s@.contains(' '),
{
    for i in 0..s.len()
        invariant
            forall|j: int| 0 <= j < i ==> s@[j] != ' ',
    {
        if s[i] == ' ' {
            return true;
        }
    }
    false
}

fn repeats(t: &[char], k: usize) -> (r: bool)
    requires
        k <= t@.len(),
    ensures
        r == repeats_at(t@, k as int),
{
    let n: usize = t.len();
    let left = slice_subrange(t, 0, k);
    let right = slice_subrange(t, k, n);
    assert(left@ =~= t@.take(k as int));
    assert(right@ =~= t@.skip(k as int));
    let found = words_of(left);
    assert(texts(found@) == words(left@));
    let m: usize = found.len();
    if m == 0 {
        return false;
    }
    assert(words(left@).last() == found@[m - 1]@);
    text_starts_with(right, &found[m - 1]) && has_blank(left)
}

fn find_repeat(t: &[char]) -> (r: Option<usize>)
    ensures
        match r {
            Some(k) => first_repeat(t@, 1) == Some(k as int) && k <= t@.len(),
            None => first_repeat(t@, 1) is None,
        },
{
    let n: usize = t.len();
    let mut k: usize = 1;
    while k < n
        invariant
            n == t@.len(),
            k >= 1,
            first_repeat(t@, 1) == first_repeat(t@, k as int),
        decreases n - k,
    {
        if repeats(t, k) {
            return Some(k);
        }
        k = k + 1;
    }
    None
}

fn is_ascii_text(s: &[char]) -> (r: bool)
    ensures
        r == all_ascii(s@),
{
    for i in 0..s.len()
        invariant
            forall|j: int| 0 <= j < i ==> #[trigger] s@[j] as u32 <= 0x7f,
    {
        if s[i] as u32 > 0x7f {
            return false;
        }
    }
    true
}

/// Tells whether `clean_team_name` can cut a name.
pub fn cleanable(raw: &str) -> (r: bool)
    ensures
        r == can_clean(raw@),
{
    let cs = chars_of(raw);
    let t = trim_of(&cs);
    match find_repeat(t) {
        Some(k) => {
            assert(t@.subrange(0, k as int) =~= t@.take(k as int));
            is_ascii_text(slice_subrange(t, 0, k))
        },
        None => is_ascii_text(t),
    }
}

/// The text of a team link looks like "Denver NuggetsNuggetsDEN": the full name, the nickname and
/// the abbreviation. The name ends where the last word of the full name starts again.
pub fn clean_team_name(raw: &str) -> (r: String)
    requires
        can_clean(raw@),
    ensures
        r@ == cleaned(raw@),
{
    let cs = chars_of(raw);
    let t = trim_of(&cs);
    match find_repeat(t) {
        Some(k) => {
            assert(t@.subrange(0, k as int) =~= t@.take(k as int));
            string_of(trim_of(slice_subrange(t, 0, k)))
        },
        None => string_of(t),
    }
}

/// The full name comes out where its last word, and no earlier one, starts again right after it.
pub proof fn law_clean_name_is_the_full_name(name: Seq<char>, rest: Seq<char>)
    requires
        trim(name) == name,
        trim(name + rest) == name + rest,
        rest.len() > 0,
        name.contains(' '),
        words(name).len() > 0,
        starts_with(rest, words(name).last()),
        forall|k: int| 1 <= k < name.len() ==> !#[trigger] repeats_at(name + rest, k),
    ensures
        cleaned(name + rest) == name,
{
    let t = name + rest;
    let n = name.len() as int;
    assert(t.take(n) =~= name);
    assert(t.skip(n) =~= rest);
    assert(repeats_at(t, n));
    lemma_first_repeat(t, 1);
}

/// The moneyline of a link: its text, or a dash where there is no link or no text.
pub open spec fn moneyline_of(text: Option<Seq<char>>) -> Seq<char> {
    match text {
        Some(t) => if trim(t).len() == 0 {
            "-"@
        } else {
            trim(t)
        },
        None => "-"@,
    }
}

/// The text of a link that may be missing.
pub open spec fn link_text(link: Option<&(String, String)>) -> Option<Seq<char>> {
    match link {
        Some(l) => Some(l.1@),
        None => None,
    }
}

/// The moneyline of a betting link, given as its address and its text.
pub fn parse_ml(link: Option<&(String, String)>) -> (r: String)
    ensures
        r@ == moneyline_of(link_text(link)),
{
    match link {
        None => "-".to_string(),
        Some(l) => {
            let cs = chars_of(l.1.as_str());
            let t = trim_of(&cs);
            if t.len() == 0 {
                "-".to_string()
            } else {
                string_of(t)
            }
        },
    }
}

/// A name ends at the first place, inside the text, where the last word before it stands again and
/// a blank stands somewhere before it; the white space before that place goes too. A text without
/// such a place is all name.
pub proof fn law_name_ends_at_the_first_repeat(raw: Seq<char>, k: int)
    requires
        1 <= k <= trim(raw).len(),
        forall|j: int|
            1 <= j < k ==> {
                let left = #[trigger] trim(raw).take(j);
                let last = words(left).last();
                !(left.contains(' ') && words(left).len() > 0 && j + last.len() <= trim(raw).len()
                    && trim(raw).subrange(j, j + last.len()) == last)
            },
        k < trim(raw).len() ==> {
            let left = trim(raw).take(k);
            let last = words(left).last();
            left.contains(' ') && words(left).len() > 0 && k + last.len() <= trim(raw).len()
                && trim(raw).subrange(k, k + last.len()) == last
        },
    ensures
        k < trim(raw).len() ==> cleaned(raw) == trim(trim(raw).take(k)),
        k == trim(raw).len() ==> cleaned(raw) == trim(raw),
{
    let t = trim(raw);
    assert forall|j: int| 1 <= j < k implies !#[trigger] repeats_at(t, j) by {
        let left = t.take(j);
        if words(left).len() > 0 && starts_with(t.skip(j), words(left).last()) {
            let n = words(left).last().len() as int;
            assert(t.subrange(j, j + n) =~= t.skip(j).subrange(0, n));
        }
    }
    if k < t.len() {
        let n = words(t.take(k)).last().len() as int;
        assert(t.skip(k).subrange(0, n) =~= t.subrange(k, k + n));
        assert(repeats_at(t, k));
    }
    lemma_first_repeat(t, 1);
}

/// A moneyline is the text of its link without the white space around it; where the link is missing
/// or its text is blank, it is a dash.
pub proof fn law_moneyline_is_the_text(text: Seq<char>)
    ensures
        moneyline_of(None) == seq!['-'],
        (forall|i: int| 0 <= i < text.len() ==> is_space(#[trigger] text[i])) ==> moneyline_of(
            Some(text),
        ) == seq!['-'],
        forall|i: int|
            0 <= i < text.len() && !is_space(#[trigger] text[i]) ==> {
                let ml = moneyline_of(Some(text));
                &&& ml.len() > 0
                &&& !is_space(ml[0])
                &&& !is_space(ml.last())
                &&& exists|k: int|
                    {
                        &&& 0 <= k <= i < k + ml.len() <= text.len()
                        &&& #[trigger] text.subrange(k, k + ml.len()) == ml
                        &&& forall|j: int|
                            0 <= j < text.len() && (j < k || j >= k + ml.len()) ==> is_space(
                                #[trigger] text[j],
                            )
                    }
            },
{
    reveal_strlit("-");
    assert("-"@ =~= seq!['-']);
    law_trim_takes_white_space_alone(text);
    let t = trim(text);
    let k = choose|k: int|
        {
            &&& 0 <= k
            &&& k + t.len() <= text.len()
            &&& #[trigger] text.subrange(k, k + t.len()) == t
            &&& forall|i: int|
                0 <= i < text.len() && (i < k || i >= k + t.len()) ==> is_space(#[trigger] text[i])
        };
    if t.len() > 0 {
        assert(text[k] == t[0]);
    }
}

/// Every name in ASCII characters can be cut.
pub proof fn law_ascii_names_can_be_cut(raw: Seq<char>)
    requires
        forall|i: int| 0 <= i < raw.len() ==> #[trigger] raw[i] as u32 <= 0x7f,
    ensures
        can_clean(raw),
{
    law_trim_takes_white_space_alone(raw);
    let t = trim(raw);
    let k = choose|k: int|
        {
            &&& 0 <= k
            &&& k + t.len() <= raw.len()
            &&& #[trigger] raw.subrange(k, k + t.len()) == t
            &&& forall|i: int|
                0 <= i < raw.len() && (i < k || i >= k + t.len()) ==> is_space(#[trigger] raw[i])
        };
    assert forall|i: int| 0 <= i < t.len() implies #[trigger] t[i] as u32 <= 0x7f by {
        assert(t[i] == raw[k + i]);
    }
    lemma_first_repeat(t, 1);
    if let Some(p) = first_repeat(t, 1) {
        assert forall|i: int| 0 <= i < t.take(p).len() implies #[trigger] t.take(p)[i] as u32
            <= 0x7f by {
            assert(t.take(p)[i] == t[i]);
        }
    }
}

/// A blank text is no name.
pub proof fn law_blank_texts_name_nobody(raw: Seq<char>)
    requires
        forall|i: int| 0 <= i < raw.len() ==> is_space(#[trigger] raw[i]),
    ensures
        cleaned(raw).len() == 0,
{
    law_trim_takes_white_space_alone(raw);
    let t = trim(raw);
    if t.len() > 0 {
        let k = choose|k: int|
            {
                &&& 0 <= k
                &&& k + t.len() <= raw.len()
                &&& #[trigger] raw.subrange(k, k + t.len()) == t
                &&& forall|i: int|
                    0 <= i < raw.len() && (i < k || i >= k + t.len()) ==> is_space(
                        #[trigger] raw[i],
                    )
            };
        assert(t[0] == raw[k]);
    }
}

} // verus!
