//! Lengths and cuts that are counted in the bytes of the UTF-8 encoding.

use vstd::prelude::*;
use vstd::utf8::{encode_scalar, encode_utf8};

use crate::text::chars_of;

verus! {

/// The bytes that the encoding of a character takes.
pub open spec fn width(c: char) -> int {
    if c as u32 <= 0x7f {
        1
    } else if c as u32 <= 0x7ff {
        2
    } else if c as u32 <= 0xffff {
        3
    } else {
        4
    }
}

/// The bytes that the encoding of a text takes.
pub open spec fn byte_len(s: Seq<char>) -> int
    decreases s.len(),
{
    if s.len() == 0 {
        0
    } else {
        byte_len(s.drop_last()) + width(s.last())
    }
}

/// The number of characters, not fewer than `k`, that take `n` bytes at the start of `s`.
pub open spec fn cut_from(s: Seq<char>, n: int, k: int) -> Option<int>
    decreases s.len() - k,
{
    if byte_len(s.take(k)) == n {
        Some(k)
    } else if byte_len(s.take(k)) > n || k >= s.len() {
        None
    } else {
        cut_from(s, n, k + 1)
    }
}

/// The number of characters that take `n` bytes at the start of `s`; none where `s` is shorter
/// or where byte `n` stands inside a character.
pub open spec fn cut_at(s: Seq<char>, n: int) -> Option<int> {
    cut_from(s, n, 0)
}

/// `byte_len` is the length of the encoding.
pub proof fn law_byte_len_is_encoded_len(s: Seq<char>)
    ensures
        byte_len(s) == encode_utf8(s).len(),
    decreases s.len(),
{
    if s.len() > 0 {
        lemma_byte_len_cons(s);
        vstd::utf8::char_is_scalar(s[0]);
        assert(encode_scalar(s[0] as u32).len() == width(s[0]));
        law_byte_len_is_encoded_len(s.drop_first());
    }
}

proof fn lemma_byte_len_cons(s: Seq<char>)
    requires
        s.len() > 0,
    ensures
        byte_len(s) == width(s[0]) + byte_len(s.drop_first()),
    decreases s.len(),
{
    if s.len() == 1 {
        assert(s.drop_first() =~= Seq::<char>::empty());
        assert(s.drop_last() =~= Seq::<char>::empty());
    } else {
        lemma_byte_len_cons(s.drop_last());
        assert(s.drop_last().drop_first() =~= s.drop_first().drop_last());
    }
}

pub proof fn lemma_cut_from(s: Seq<char>, n: int, k: int)
    requires
        0 <= k <= s.len(),
    ensures
        match cut_from(s, n, k) {
            Some(c) => k <= c <= s.len() && byte_len(s.take(c)) == n,
            None => true,
        },
    decreases s.len() - k,
{
    if byte_len(s.take(k)) != n && byte_len(s.take(k)) < n && k < s.len() {
        lemma_cut_from(s, n, k + 1);
    }
}

fn width_of(c: char) -> (r: usize)
    ensures
        r == width(c),
        1 <= r <= 4,
{
    if c as u32 <= 0x7f {
        1
    } else if c as u32 <= 0x7ff {
        2
    } else if c as u32 <= 0xffff {
        3
    } else {
        4
    }
}

/// Tells whether a text takes no more than `n` bytes.
pub fn fits(s: &[char], n: usize) -> (r: bool)
    ensures
        r == (byte_len(s@) <= n),
{
    let mut total: usize = 0;
    assert(s@.take(0) =~= Seq::<char>::empty());
    for i in 0..s.len()
        invariant
            total <= n,
            total == byte_len(s@.take(i as int)),
    {
        assert(s@.take(i + 1).drop_last() =~= s@.take(i as int));
        let w: usize = width_of(s[i]);
        if w > n - total {
            proof {
                lemma_byte_len_grows(s@, i + 1);
            }
            return false;
        }
        total = total + w;
    }
    assert(s@.take(s@.len() as int) =~= s@);
    true
}

proof fn lemma_byte_len_grows(s: Seq<char>, k: int)
    requires
        0 <= k <= s.len(),
    ensures
        byte_len(s.take(k)) <= byte_len(s),
    decreases s.len(),
{
    if k < s.len() {
        assert(s.drop_last().take(k) =~= s.take(k));
        lemma_byte_len_grows(s.drop_last(), k);
    } else {
        assert(s.take(k) =~= s);
    }
}

/// The number of characters that take `n` bytes at the start of `s`.
pub fn cut_of(s: &[char], n: usize) -> (r: Option<usize>)
    ensures
        match r {
            Some(k) => cut_at(s@, n as int) == Some(k as int) && k <= s@.len(),
            None => cut_at(s@, n as int) is None,
        },
{
    let mut k: usize = 0;
    let mut total: usize = 0;
    assert(s@.take(0) =~= Seq::<char>::empty());
    while k < s.len() && total < n
        invariant
            k <= s@.len(),
            total <= n,
            total == byte_len(s@.take(k as int)),
            cut_at(s@, n as int) == cut_from(s@, n as int, k as int),
        decreases s@.len() - k,
    {
        assert(s@.take(k + 1).drop_last() =~= s@.take(k as int));
        let w: usize = width_of(s[k]);
        if w > n - total {
            assert(cut_from(s@, n as int, k + 1) is None);
            return None;
        }
        total = total + w;
        k = k + 1;
    }
    if total == n {
        Some(k)
    } else {
        None
    }
}

/// `s` where it takes no more than `max` bytes, else its first `max` bytes.
pub open spec fn truncated(s: Seq<char>, max: int) -> Seq<char> {
    if byte_len(s) <= max {
        s
    } else {
        s.take(cut_at(s, max)->0)
    }
}

/// `s` can be cut to `max` bytes: it fits in them, or a character ends there.
pub open spec fn can_truncate(s: Seq<char>, max: int) -> bool {
    byte_len(s) <= max || cut_at(s, max) is Some
}

/// Tells whether `truncate` can cut `s`.
pub fn truncatable(s: &str, max: usize) -> (r: bool)
    ensures
        r == can_truncate(s@, max as int),
{
    let cs = chars_of(s);
    fits(&cs, max) || cut_of(&cs, max).is_some()
}

/// Cuts a text to at most `max` bytes.
pub fn truncate(s: &str, max: usize) -> (r: &str)
    requires
        can_truncate(s@, max as int),
    ensures
        r@ == truncated(s@, max as int),
{
    let cs = chars_of(s);
    if fits(&cs, max) {
        return s;
    }
    let k: usize = cut_of(&cs, max).unwrap();
    assert(s@.subrange(0, k as int) =~= s@.take(k as int));
    s.substring_char(0, k)
}

/// What a text is cut to is a start of it: all of it where it takes no more than `max` bytes, else
/// as much as takes exactly that many.
pub proof fn law_truncated_is_a_start(s: Seq<char>, max: int)
    requires
        can_truncate(s, max),
    ensures
        truncated(s, max).len() <= s.len(),
        truncated(s, max) == s.take(truncated(s, max).len() as int),
        byte_len(truncated(s, max)) <= max,
        byte_len(s) <= max ==> truncated(s, max) == s,
        byte_len(s) > max ==> byte_len(truncated(s, max)) == max,
{
    assert(s.take(s.len() as int) =~= s);
    lemma_cut_from(s, max, 0);
}

/// A text can be cut where a start of it takes exactly `max` bytes, or all of it no more.
pub proof fn law_texts_that_can_be_cut(s: Seq<char>, max: int)
    requires
        max >= 0,
    ensures
        can_truncate(s, max) <==> byte_len(s) <= max || exists|k: int|
            0 <= k <= s.len() && #[trigger] byte_len(s.take(k)) == max,
{
    lemma_cut_from(s, max, 0);
    if exists|k: int| 0 <= k <= s.len() && #[trigger] byte_len(s.take(k)) == max {
        let k = choose|k: int| 0 <= k <= s.len() && #[trigger] byte_len(s.take(k)) == max;
        lemma_cut_reached(s, k, 0);
    }
}

proof fn lemma_cut_reached(s: Seq<char>, k: int, j: int)
    requires
        0 <= j <= k <= s.len(),
    ensures
        cut_from(s, byte_len(s.take(k)), j) is Some,
    decreases k - j,
{
    if j < k && byte_len(s.take(j)) != byte_len(s.take(k)) {
        assert(s.take(k).take(j) =~= s.take(j));
        lemma_byte_len_grows(s.take(k), j);
        lemma_cut_reached(s, k, j + 1);
    }
}

/// A longer start of a text takes more bytes.
pub proof fn lemma_longer_start(s: Seq<char>, a: int, b: int)
    requires
        0 <= a < b <= s.len(),
    ensures
        byte_len(s.take(a)) < byte_len(s.take(b)),
    decreases b - a,
{
    assert(s.take(b).drop_last() =~= s.take(b - 1));
    if a < b - 1 {
        lemma_longer_start(s, a, b - 1);
    }
}

} // verus!
