//! Numbers in text: reading and writing decimal integers, and telling which texts are decimal
//! fractions.

use vstd::arithmetic::power::{lemma_pow0, pow};
use vstd::prelude::*;
use vstd::slice::slice_subrange;

use crate::text::{chars_of, find, find_text, lemma_find_from, occurs_at, text_eq};

verus! {

pub open spec fn is_digit(c: char) -> bool {
    '0' <= c && c <= '9'
}

pub open spec fn digit_value(c: char) -> int {
    c as int - '0' as int
}

pub open spec fn only_digits(s: Seq<char>) -> bool {
    forall|i: int| 0 <= i < s.len() ==> is_digit(#[trigger] s[i])
}

/// One digit or more, and nothing else.
pub open spec fn is_numeral(s: Seq<char>) -> bool {
    s.len() > 0 && only_digits(s)
}

/// The number that a numeral writes.
pub open spec fn numeral_value(s: Seq<char>) -> int
    decreases s.len(),
{
    if s.len() == 0 {
        0
    } else {
        10 * numeral_value(s.drop_last()) + digit_value(s.last())
    }
}

/// A numeral with an optional plus sign, for a number that fits in 32 bits.
pub open spec fn read_u32(s: Seq<char>) -> Option<int> {
    let body = if s.len() > 0 && s[0] == '+' {
        s.drop_first()
    } else {
        s
    };
    if is_numeral(body) && numeral_value(body) <= u32::MAX {
        Some(numeral_value(body))
    } else {
        None
    }
}

/// A numeral with an optional sign, for a number that fits in 32 bits with its sign.
pub open spec fn read_i32(s: Seq<char>) -> Option<int> {
    let signed = s.len() > 0 && (s[0] == '+' || s[0] == '-');
    let body = if signed {
        s.drop_first()
    } else {
        s
    };
    let value = if signed && s[0] == '-' {
        -numeral_value(body)
    } else {
        numeral_value(body)
    };
    if is_numeral(body) && i32::MIN <= value <= i32::MAX {
        Some(value)
    } else {
        None
    }
}

pub open spec fn digit_char(d: int) -> char {
    ('0' as int + d) as char
}

/// The decimal digits of `n`, without leading zeros.
pub open spec fn show_nat(n: int) -> Seq<char>
    decreases n,
{
    if n < 10 {
        seq![digit_char(n)]
    } else {
        show_nat(n / 10).push(digit_char(n % 10))
    }
}

/// `n` in decimal, with a minus sign where it is negative.
pub open spec fn show_int(n: int) -> Seq<char> {
    if n < 0 {
        seq!['-'] + show_nat(-n)
    } else {
        show_nat(n)
    }
}

/// `n` in decimal, with a zero before it where it has one digit.
pub open spec fn show_two_digits(n: int) -> Seq<char> {
    if n < 10 {
        seq!['0'] + show_nat(n)
    } else {
        show_nat(n)
    }
}

/// `s` with the sign that it may start with taken off.
pub open spec fn without_sign(s: Seq<char>) -> Seq<char> {
    if s.len() > 0 && (s[0] == '+' || s[0] == '-') {
        s.drop_first()
    } else {
        s
    }
}

/// The small letter of an ASCII letter; any other character itself.
pub open spec fn ascii_small(c: char) -> char {
    if 'A' <= c && c <= 'Z' {
        (c as int + 32) as char
    } else {
        c
    }
}

pub open spec fn ascii_small_all(s: Seq<char>) -> Seq<char> {
    s.map_values(|c: char| ascii_small(c))
}

/// Digits with at most one point among them, and at least one digit.
pub open spec fn is_mantissa(s: Seq<char>) -> bool {
    match find(s, seq!['.']) {
        None => is_numeral(s),
        Some(p) => s.len() > 1 && only_digits(s.take(p)) && only_digits(s.skip(p + 1)),
    }
}

/// A mantissa, and after it an optional `e` with a signed numeral. `s` is in small letters.
pub open spec fn is_number(s: Seq<char>) -> bool {
    match find(s, seq!['e']) {
        None => is_mantissa(s),
        Some(p) => is_mantissa(s.take(p)) && is_numeral(without_sign(s.skip(p + 1))),
    }
}

/// A text that writes a binary floating-point number: an optional sign, then `inf`, `infinity`,
/// `nan` or a decimal number, in capital or small letters.
pub open spec fn is_decimal(s: Seq<char>) -> bool {
    let body = ascii_small_all(without_sign(s));
    body == "inf"@ || body == "infinity"@ || body == "nan"@ || is_number(body)
}

/// The bound at which `magnitude` stops counting: greater than any number of 32 bits.
const MAGNITUDE_CAP: u64 = 0x1_0000_0000;

fn digits_only(s: &[char]) -> (r: bool)
    ensures
        r == only_digits(s@),
{
    for i in 0..s.len()
        invariant
            forall|j: int| 0 <= j < i ==> is_digit(#[trigger] s@[j]),
    {
        if !('0' <= s[i] && s[i] <= '9') {
            assert(!is_digit(s@[i as int]));
            return false;
        }
    }
    true
}

/// The number that a numeral writes, or the cap where it is as great as that.
fn magnitude(s: &[char]) -> (r: Option<u64>)
    ensures
        match r {
            Some(v) => is_numeral(s@) && v <= MAGNITUDE_CAP && (v < MAGNITUDE_CAP ==> v
                == numeral_value(s@)) && (v == MAGNITUDE_CAP ==> numeral_value(s@)
                >= MAGNITUDE_CAP),
            None => !is_numeral(s@),
        },
{
    if s.len() == 0 || !digits_only(s) {
        return None;
    }
    let mut v: u64 = 0;
    assert(s@.take(0) =~= Seq::<char>::empty());
    for i in 0..s.len()
        invariant
            only_digits(s@),
            v <= MAGNITUDE_CAP,
            v < MAGNITUDE_CAP ==> v == numeral_value(s@.take(i as int)),
            v == MAGNITUDE_CAP ==> numeral_value(s@.take(i as int)) >= MAGNITUDE_CAP,
    {
        assert(is_digit(s@[i as int]));
        assert(s@.take(i + 1).drop_last() =~= s@.take(i as int));
        assert(s@.take(i + 1).last() == s@[i as int]);
        let d: u64 = (s[i] as u32 - '0' as u32) as u64;
        assert(d == digit_value(s@[i as int]));
        if v < MAGNITUDE_CAP {
            v = v * 10 + d;
            if v > MAGNITUDE_CAP {
                v = MAGNITUDE_CAP;
            }
        }
    }
    assert(s@.take(s@.len() as int) =~= s@);
    Some(v)
}

/// Reads an unsigned integer of 32 bits.
pub fn parse_u32(s: &[char]) -> (r: Option<u32>)
    ensures
        match r {
            Some(v) => read_u32(s@) == Some(v as int),
            None => read_u32(s@) is None,
        },
{
    let from: usize = if s.len() > 0 && s[0] == '+' {
        1
    } else {
        0
    };
    let body = slice_subrange(s, from, s.len());
    proof {
        assert(s@.len() > 0 ==> s@.subrange(1, s@.len() as int) =~= s@.drop_first());
        assert(s@.subrange(0, s@.len() as int) =~= s@);
    }
    match magnitude(body) {
        Some(v) => if v < MAGNITUDE_CAP {
            Some(v as u32)
        } else {
            None
        },
        None => None,
    }
}

/// Reads a signed integer of 32 bits.
pub fn parse_i32(s: &[char]) -> (r: Option<i32>)
    ensures
        match r {
            Some(v) => read_i32(s@) == Some(v as int),
            None => read_i32(s@) is None,
        },
{
    let signed: bool = s.len() > 0 && (s[0] == '+' || s[0] == '-');
    let from: usize = if signed {
        1
    } else {
        0
    };
    let body = slice_subrange(s, from, s.len());
    proof {
        assert(s@.len() > 0 ==> s@.subrange(1, s@.len() as int) =~= s@.drop_first());
        assert(s@.subrange(0, s@.len() as int) =~= s@);
    }
    match magnitude(body) {
        Some(v) => {
            let value: i64 = if signed && s[0] == '-' {
                -(v as i64)
            } else {
                v as i64
            };
            if i32::MIN as i64 <= value && value <= i32::MAX as i64 {
                Some(value as i32)
            } else {
                None
            }
        },
        None => None,
    }
}

/// Appends `n` in decimal.
pub fn push_nat(out: &mut Vec<char>, n: u64)
    ensures
        final(out)@ == old(out)@ + show_nat(n as int),
    decreases n,
{
    if n >= 10 {
        push_nat(out, n / 10);
    }
    let d: u8 = 48 + (n % 10) as u8;
    out.push(d as char);
    assert(out@ =~= old(out)@ + show_nat(n as int));
}

/// Appends `n` in decimal, with its sign where it is negative.
pub fn push_int(out: &mut Vec<char>, n: i64)
    requires
        n > i64::MIN,
    ensures
        final(out)@ == old(out)@ + show_int(n as int),
{
    if n < 0 {
        out.push('-');
        push_nat(out, (-n) as u64);
        assert(out@ =~= old(out)@ + show_int(n as int));
    } else {
        push_nat(out, n as u64);
    }
}

/// Appends `n` in decimal with two digits at least.
pub fn push_two_digits(out: &mut Vec<char>, n: u64)
    ensures
        final(out)@ == old(out)@ + show_two_digits(n as int),
{
    if n < 10 {
        out.push('0');
    }
    push_nat(out, n);
    assert(out@ =~= old(out)@ + show_two_digits(n as int));
}

fn small(c: char) -> (r: char)
    ensures
        r == ascii_small(c),
{
    if 'A' <= c && c <= 'Z' {
        let b: u8 = c as u8;
        (b + 32) as char
    } else {
        c
    }
}

fn small_all(s: &[char]) -> (r: Vec<char>)
    ensures
        r@ == ascii_small_all(s@),
{
    let mut out: Vec<char> = Vec::new();
    for i in 0..s.len()
        invariant
            out@ == ascii_small_all(s@.take(i as int)),
    {
        out.push(small(s[i]));
        assert(out@ =~= ascii_small_all(s@.take(i + 1)));
    }
    assert(s@.take(s@.len() as int) =~= s@);
    out
}

fn drop_sign(s: &[char]) -> (r: &[char])
    ensures
        r@ == without_sign(s@),
{
    proof {
        assert(s@.len() > 0 ==> s@.subrange(1, s@.len() as int) =~= s@.drop_first());
    }
    if s.len() > 0 && (s[0] == '+' || s[0] == '-') {
        slice_subrange(s, 1, s.len())
    } else {
        s
    }
}

fn mantissa(s: &[char]) -> (r: bool)
    ensures
        r == is_mantissa(s@),
{
    let point: [char; 1] = ['.'];
    assert(point@ =~= seq!['.']);
    match find_text(s, &point) {
        None => s.len() > 0 && digits_only(s),
        Some(p) => {
            assert(s@.subrange(0, p as int) =~= s@.take(p as int));
            assert(s@.subrange(p + 1, s@.len() as int) =~= s@.skip(p + 1));
            s.len() > 1 && digits_only(slice_subrange(s, 0, p)) && digits_only(
                slice_subrange(s, p + 1, s.len()),
            )
        },
    }
}

fn number(s: &[char]) -> (r: bool)
    ensures
        r == is_number(s@),
{
    let e: [char; 1] = ['e'];
    assert(e@ =~= seq!['e']);
    match find_text(s, &e) {
        None => mantissa(s),
        Some(p) => {
            assert(s@.subrange(0, p as int) =~= s@.take(p as int));
            assert(s@.subrange(p + 1, s@.len() as int) =~= s@.skip(p + 1));
            let n: usize = s.len();
            let power = drop_sign(slice_subrange(s, p + 1, n));
            mantissa(slice_subrange(s, 0, p)) && power.len() > 0 && digits_only(power)
        },
    }
}

/// Tells whether a text writes a floating-point number.
pub fn decimal(s: &[char]) -> (r: bool)
    ensures
        r == is_decimal(s@),
{
    let body = small_all(drop_sign(s));
    text_eq(&body, &chars_of("inf")) || text_eq(&body, &chars_of("infinity")) || text_eq(
        &body,
        &chars_of("nan"),
    ) || number(&body)
}

proof fn lemma_numeral_push(s: Seq<char>, d: int)
    requires
        is_numeral(s),
        0 <= d <= 9,
    ensures
        is_numeral(s.push(digit_char(d))),
        numeral_value(s.push(digit_char(d))) == 10 * numeral_value(s) + d,
{
    let t = s.push(digit_char(d));
    assert(t.drop_last() =~= s);
    assert(is_digit(digit_char(d)));
    assert forall|i: int| 0 <= i < t.len() implies is_digit(#[trigger] t[i]) by {
        if i < s.len() {
            assert(is_digit(s[i]));
        }
    }
}

/// The digits of a number are a numeral that writes it.
pub proof fn lemma_show_nat(n: int)
    requires
        n >= 0,
    ensures
        is_numeral(show_nat(n)),
        numeral_value(show_nat(n)) == n,
    decreases n,
{
    if n < 10 {
        let s = seq![digit_char(n)];
        assert(s.drop_last() =~= Seq::<char>::empty());
        assert(numeral_value(Seq::<char>::empty()) == 0);
    } else {
        lemma_show_nat(n / 10);
        lemma_numeral_push(show_nat(n / 10), n % 10);
    }
}

/// What is written of an unsigned integer reads back as that integer.
pub proof fn law_unsigned_reads_back(n: int)
    requires
        0 <= n <= u32::MAX,
    ensures
        read_u32(show_nat(n)) == Some(n),
{
    lemma_show_nat(n);
    assert(is_digit(show_nat(n)[0]));
}

/// What is written of a signed integer reads back as that integer.
pub proof fn law_signed_reads_back(n: int)
    requires
        i32::MIN <= n <= i32::MAX,
    ensures
        read_i32(show_int(n)) == Some(n),
{
    if n < 0 {
        lemma_show_nat(-n);
        assert(show_int(n).drop_first() =~= show_nat(-n));
    } else {
        lemma_show_nat(n);
        assert(is_digit(show_nat(n)[0]));
    }
}

/// A numeral counts in tens: of two numerals written one after the other, the first counts as many
/// tens as the second has digits, and one digit counts its place after zero.
pub proof fn law_numerals_count_in_tens(a: Seq<char>, b: Seq<char>)
    ensures
        numeral_value(a + b) == numeral_value(a) * pow(10, b.len()) + numeral_value(b),
        b.len() == 1 ==> numeral_value(b) == b[0] as int - '0' as int,
    decreases b.len(),
{
    if b.len() == 0 {
        assert(a + b =~= a);
        lemma_pow0(10);
    } else {
        let d = b.drop_last();
        law_numerals_count_in_tens(a, d);
        assert((a + b).drop_last() =~= a + d);
        let x = numeral_value(a);
        let p = pow(10, d.len());
        assert(pow(10, b.len()) == 10 * p) by {
            reveal(pow);
        }
        assert(10 * (x * p) == x * (10 * p)) by (nonlinear_arith);
        if b.len() == 1 {
            assert(numeral_value(d) == 0);
        }
    }
}

/// Digits are read as the number they write, with or without a plus sign, as long as the number
/// fits; with a minus sign, as its negative where that may be negative.
pub proof fn law_digits_are_read(s: Seq<char>)
    requires
        s.len() > 0,
        forall|i: int| 0 <= i < s.len() ==> '0' <= #[trigger] s[i] <= '9',
    ensures
        ({
            let n = numeral_value(s);
            let unsigned: Option<int> = if n <= 0xffff_ffff {
                Some(n)
            } else {
                None
            };
            let positive: Option<int> = if n <= 0x7fff_ffff {
                Some(n)
            } else {
                None
            };
            let negative: Option<int> = if n <= 0x8000_0000 {
                Some(-n)
            } else {
                None
            };
            &&& read_u32(s) == unsigned
            &&& read_u32(seq!['+'] + s) == unsigned
            &&& read_u32(seq!['-'] + s) is None
            &&& read_i32(s) == positive
            &&& read_i32(seq!['+'] + s) == positive
            &&& read_i32(seq!['-'] + s) == negative
        }),
{
    assert forall|i: int| 0 <= i < s.len() implies is_digit(#[trigger] s[i]) by {}
    lemma_digits_not_negative(s);
    assert((seq!['+'] + s).drop_first() =~= s);
    assert((seq!['-'] + s).drop_first() =~= s);
    assert(!is_digit((seq!['-'] + s)[0]));
}

pub proof fn lemma_digits_not_negative(s: Seq<char>)
    requires
        only_digits(s),
    ensures
        numeral_value(s) >= 0,
    decreases s.len(),
{
    if s.len() > 0 {
        let d = s.drop_last();
        assert forall|i: int| 0 <= i < d.len() implies is_digit(#[trigger] d[i]) by {
            assert(is_digit(s[i]));
        }
        assert(is_digit(s[s.len() - 1]));
        lemma_digits_not_negative(d);
    }
}

/// Nothing is read but digits with at most one sign before them.
pub proof fn law_only_digits_are_read(s: Seq<char>, i: int)
    requires
        read_u32(s) is Some || read_i32(s) is Some,
        0 <= i < s.len(),
    ensures
        s.len() >= 1,
        i > 0 ==> '0' <= s[i] <= '9',
        i == 0 && !('0' <= s[i] <= '9') ==> s.len() > 1 && (s[i] == '+' || (s[i] == '-' && read_u32(
            s,
        ) is None)),
{
    let rest = s.drop_first();
    if s[0] == '+' || s[0] == '-' {
        if i > 0 {
            assert(rest[i - 1] == s[i]);
            if read_u32(s) is Some && s[0] == '-' {
                assert(is_digit(s[0]));
            }
            assert(is_digit(rest[i - 1]));
        } else if s[0] == '-' && read_u32(s) is Some {
            assert(is_digit(s[0]));
        }
    } else {
        assert(is_digit(s[i]));
    }
}

/// A number is written without a zero before its first digit.
pub proof fn law_numbers_start_with_no_zero(n: int)
    requires
        n > 0,
    ensures
        show_nat(n).len() > 0,
        '1' <= show_nat(n)[0] <= '9',
        show_int(-n) == seq!['-'] + show_nat(n),
    decreases n,
{
    if n >= 10 {
        law_numbers_start_with_no_zero(n / 10);
    }
}

/// A number is written with at least two digits, which read back as it.
pub proof fn law_two_digits_read_back(n: int)
    requires
        0 <= n <= u32::MAX,
    ensures
        show_two_digits(n).len() >= 2,
        n < 100 ==> show_two_digits(n).len() == 2,
        read_u32(show_two_digits(n)) == Some(n),
{
    lemma_show_nat(n);
    let s = show_two_digits(n);
    if n < 10 {
        let zero = seq!['0'];
        law_numerals_count_in_tens(zero, show_nat(n));
        assert(zero.drop_last() =~= Seq::<char>::empty());
        assert(numeral_value(Seq::<char>::empty()) == 0);
        let tens = pow(10, show_nat(n).len());
        assert(0 * tens == 0) by (nonlinear_arith);
        assert(numeral_value(zero) == 0);
        assert(numeral_value(s) == n);
        assert forall|i: int| 0 <= i < s.len() implies is_digit(#[trigger] s[i]) by {
            if i > 0 {
                assert(is_digit(show_nat(n)[i - 1]));
            }
        }
    } else {
        assert(show_nat(n / 10).len() > 0) by {
            lemma_show_nat(n / 10);
        }
        assert(is_digit(s[0]));
    }
}

/// Digits and a point among them, before them or after them, write a number of floating point; so
/// do digits alone.
pub proof fn law_decimals_are_digits_and_a_point(a: Seq<char>, b: Seq<char>)
    requires
        only_digits(a),
        only_digits(b),
        a.len() + b.len() > 0,
    ensures
        is_decimal(a + seq!['.'] + b),
        is_decimal(seq!['-'] + (a + seq!['.'] + b)),
        is_decimal(seq!['+'] + (a + seq!['.'] + b)),
        a.len() > 0 ==> is_decimal(a),
{
    let s = a + seq!['.'] + b;
    let n = a.len() as int;
    assert forall|i: int| 0 <= i < s.len() implies #[trigger] s[i] == '.' || is_digit(s[i]) by {
        if i < n {
            assert(is_digit(a[i]));
        } else if i > n {
            assert(is_digit(b[i - n - 1]));
        }
    }
    lemma_plain_decimal(s);
    assert forall|i: int| 0 <= i < n implies s[i] != '.' by {
        assert(is_digit(a[i]));
    }
    lemma_find_from(s, seq!['.'], 0);
    lemma_char_found(s, '.', n);
    assert(s.take(n) =~= a);
    assert(s.skip(n + 1) =~= b);
    assert(is_mantissa(s));
    assert((seq!['-'] + s).drop_first() =~= s);
    assert((seq!['+'] + s).drop_first() =~= s);
    if n > 0 {
        assert forall|i: int| 0 <= i < n implies #[trigger] a[i] == '.' || is_digit(a[i]) by {}
        lemma_plain_decimal(a);
        assert(is_digit(a[0]));
        lemma_find_from(a, seq!['.'], 0);
        if let Some(p) = find(a, seq!['.']) {
            assert(a.subrange(p, p + 1)[0] == a[p]);
            assert(is_digit(a[p]));
        }
    }
}

/// A character that first stands at `n` is found there.
pub proof fn lemma_char_found(s: Seq<char>, c: char, n: int)
    requires
        0 <= n < s.len(),
        s[n] == c,
        forall|i: int| 0 <= i < n ==> s[i] != c,
    ensures
        find(s, seq![c]) == Some(n),
{
    lemma_find_from(s, seq![c], 0);
    assert(s.subrange(n, n + 1) =~= seq![c]);
    assert(occurs_at(s, n, seq![c]));
    if let Some(p) = find(s, seq![c]) {
        assert(s.subrange(p, p + 1)[0] == s[p]);
    }
}

/// A text of digits and points has neither a sign nor an exponent, and is the same in small
/// letters.
proof fn lemma_plain_decimal(s: Seq<char>)
    requires
        s.len() > 0,
        forall|i: int| 0 <= i < s.len() ==> #[trigger] s[i] == '.' || is_digit(s[i]),
    ensures
        ascii_small_all(s) == s,
        without_sign(s) == s,
        find(s, seq!['e']) is None,
{
    assert(s[0] == '.' || is_digit(s[0]));
    assert forall|i: int| 0 <= i < s.len() implies ascii_small_all(s)[i] == s[i] by {
        assert(s[i] == '.' || is_digit(s[i]));
    }
    assert(ascii_small_all(s) =~= s);
    lemma_find_from(s, seq!['e'], 0);
    if let Some(p) = find(s, seq!['e']) {
        assert(s.subrange(p, p + 1)[0] == s[p]);
    }
}

/// Digits with an exponent write a number: an `e`, small or capital, a sign or none, and digits.
pub proof fn law_decimals_may_have_an_exponent(a: Seq<char>, e: char, sign: Seq<char>, b: Seq<char>)
    requires
        is_numeral(a),
        e == 'e' || e == 'E',
        sign == Seq::<char>::empty() || sign == seq!['+'] || sign == seq!['-'],
        is_numeral(b),
    ensures
        is_decimal(a + seq![e] + sign + b),
{
    let s = a + seq![e] + sign + b;
    let n = a.len() as int;
    let small = a + seq!['e'] + sign + b;
    assert(is_digit(a[0]));
    assert(without_sign(s) == s);
    assert forall|i: int| 0 <= i < s.len() implies ascii_small_all(s)[i] == small[i] by {
        if i < n {
            assert(is_digit(a[i]));
        } else if i > n + sign.len() {
            assert(is_digit(b[i - n - 1 - sign.len()]));
        }
    }
    assert(ascii_small_all(s) =~= small);
    assert forall|i: int| 0 <= i < n implies small[i] != 'e' by {
        assert(is_digit(a[i]));
    }
    lemma_char_found(small, 'e', n);
    assert(small.take(n) =~= a);
    let rest = small.skip(n + 1);
    assert(rest =~= sign + b);
    assert(is_digit(b[0]));
    if sign.len() > 0 {
        assert(rest.drop_first() =~= b);
    } else {
        assert(rest =~= b);
    }
    assert(without_sign(rest) == b);
    lemma_find_from(a, seq!['.'], 0);
    if let Some(p) = find(a, seq!['.']) {
        assert(a.subrange(p, p + 1)[0] == a[p]);
        assert(is_digit(a[p]));
    }
}

/// A text that writes a number has no blank and no percent sign, and is not empty.
pub proof fn law_decimals_hold_nothing_else(s: Seq<char>, i: int)
    requires
        is_decimal(s),
        0 <= i < s.len(),
    ensures
        ({
            let c = s[i];
            is_digit(c) || c == '+' || c == '-' || c == '.' || 'a' <= c <= 'z' || 'A' <= c <= 'Z'
        }),
{
    reveal_strlit("inf");
    reveal_strlit("infinity");
    reveal_strlit("nan");
    let rest = without_sign(s);
    let body = ascii_small_all(rest);
    let k = if rest.len() < s.len() {
        i - 1
    } else {
        i
    };
    if k >= 0 {
        assert(rest[k] == s[i]);
        assert(body[k] == ascii_small(rest[k]));
        if is_number(body) {
            lemma_number_chars(body, k);
        }
    }
}

proof fn lemma_number_chars(s: Seq<char>, k: int)
    requires
        is_number(s),
        0 <= k < s.len(),
    ensures
        is_digit(s[k]) || s[k] == '+' || s[k] == '-' || s[k] == '.' || s[k] == 'e',
{
    lemma_find_from(s, seq!['e'], 0);
    match find(s, seq!['e']) {
        None => {
            lemma_mantissa_chars(s, k);
        },
        Some(p) => {
            assert(s.subrange(p, p + 1)[0] == s[p]);
            let tail = s.skip(p + 1);
            let digits = without_sign(tail);
            if k < p {
                assert(s.take(p)[k] == s[k]);
                lemma_mantissa_chars(s.take(p), k);
            } else if k > p {
                assert(tail[k - p - 1] == s[k]);
                if digits.len() < tail.len() {
                    if k > p + 1 {
                        assert(digits[k - p - 2] == s[k]);
                        assert(is_digit(digits[k - p - 2]));
                    }
                } else {
                    assert(is_digit(digits[k - p - 1]));
                }
            }
        },
    }
}

proof fn lemma_mantissa_chars(s: Seq<char>, k: int)
    requires
        is_mantissa(s),
        0 <= k < s.len(),
    ensures
        is_digit(s[k]) || s[k] == '.',
{
    lemma_find_from(s, seq!['.'], 0);
    match find(s, seq!['.']) {
        None => {
            assert(is_digit(s[k]));
        },
        Some(p) => {
            assert(s.subrange(p, p + 1)[0] == s[p]);
            if k < p {
                assert(is_digit(s.take(p)[k]));
            } else if k > p {
                assert(is_digit(s.skip(p + 1)[k - p - 1]));
            }
        },
    }
}

} // verus!
