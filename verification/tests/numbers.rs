use nba_odds::bytes::{cut_of, fits, truncatable, truncate};
use nba_odds::numbers::{decimal, parse_i32, parse_u32, push_int, push_nat, push_two_digits};
use nba_odds::text::{chars_of, string_of};

#[test]
fn integers_are_read_as_std_reads_them() {
    for t in [
        "", "+", "-", "0", "7", "+7", "-7", "00012", "--1", "+-1", " 1", "1 ", "1a", "4294967295",
        "4294967296", "2147483647", "2147483648", "-2147483648", "-2147483649", "99999999999999",
        "-99999999999999999999999999", "٣", "1_000", "-0", "+0",
    ] {
        let cs = chars_of(t);
        assert_eq!(parse_u32(&cs), t.parse::<u32>().ok(), "{:?}", t);
        assert_eq!(parse_i32(&cs), t.parse::<i32>().ok(), "{:?}", t);
    }
}

#[test]
fn decimals_are_those_that_std_reads() {
    let alphabet = ['0', '7', '+', '-', '.', 'e', 'E', 'n', 'a', 'x'];
    let mut last = vec![String::new()];
    for _ in 0..5 {
        let mut next = Vec::new();
        for t in &last {
            for c in alphabet {
                let mut longer = t.clone();
                longer.push(c);
                next.push(longer);
            }
        }
        for t in &next {
            assert_eq!(decimal(&chars_of(t)), t.parse::<f32>().is_ok(), "{:?}", t);
        }
        last = next;
    }
    for t in [
        "", "inf", "INF", "+inf", "-Infinity", "infinit", "NaN", "-nan", "nane", "75.8", "24.2%",
        " 1", "1 ", "1e400", "1.5e-7", "0x10", "1,5",
    ] {
        assert_eq!(decimal(&chars_of(t)), t.parse::<f32>().is_ok(), "{:?}", t);
    }
}

#[test]
fn numbers_are_written_as_std_writes_them() {
    for n in [0u64, 1, 9, 10, 99, 100, 12345, u64::MAX] {
        let mut out = vec!['#'];
        push_nat(&mut out, n);
        assert_eq!(string_of(&out), format!("#{}", n));
        let mut out = Vec::new();
        push_two_digits(&mut out, n);
        assert_eq!(string_of(&out), format!("{:02}", n));
    }
    for n in [0i64, -1, 7, -2026, i64::MAX, i64::MIN + 1] {
        let mut out = Vec::new();
        push_int(&mut out, n);
        assert_eq!(string_of(&out), n.to_string());
    }
}

#[test]
fn written_numbers_read_back() {
    for n in [0u32, 3, 2026, u32::MAX] {
        let mut out = Vec::new();
        push_nat(&mut out, n as u64);
        assert_eq!(parse_u32(&out), Some(n));
    }
    for n in [0i32, -1, 2026, i32::MAX, i32::MIN] {
        let mut out = Vec::new();
        push_int(&mut out, n as i64);
        assert_eq!(parse_i32(&out), Some(n));
    }
}

#[test]
fn names_are_cut_by_bytes() {
    assert_eq!(truncate("Minnesota Timberwolves", 26), "Minnesota Timberwolves");
    assert_eq!(truncate("abcdef", 3), "abc");
    assert_eq!(truncate("abc", 3), "abc");
    assert_eq!(truncate("", 0), "");
    assert_eq!(truncate("né€😀x", 6), "né€");
    assert!(truncatable("né€😀x", 6));
    assert!(!truncatable("né€😀x", 5));
    assert!(!truncatable("né€😀x", 2));
    assert!(truncatable("né", 3));
}

#[test]
fn byte_lengths_are_those_of_utf8() {
    let t = "né€😀x";
    let cs = chars_of(t);
    for n in 0..15 {
        assert_eq!(fits(&cs, n), t.len() <= n);
        let expected = if t.is_char_boundary(n) { Some(t[..n].chars().count()) } else { None };
        assert_eq!(cut_of(&cs, n), expected, "{}", n);
    }
}
