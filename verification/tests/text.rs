use nba_odds::text::{
    chars_of, find_text, find_text_from, is_whitespace, join_texts, lines_of, push_padded_left,
    push_padded_right, rfind_of_char, split_text_on, string_of, strip_end_of, text_contains,
    text_ends_with, text_eq, text_starts_with, trim_end_of, trim_of, trim_start_of, words_of,
};

fn owned(parts: Vec<Vec<char>>) -> Vec<String> {
    parts.iter().map(|p| string_of(p)).collect()
}

/// Every text of up to `max` characters over the given alphabet.
fn texts_over(alphabet: &[char], max: usize) -> Vec<String> {
    let mut all = vec![String::new()];
    let mut last = vec![String::new()];
    for _ in 0..max {
        let mut next = Vec::new();
        for t in &last {
            for c in alphabet {
                let mut longer = t.clone();
                longer.push(*c);
                next.push(longer);
            }
        }
        all.extend(next.iter().cloned());
        last = next;
    }
    all
}

#[test]
fn white_space_is_that_of_unicode() {
    for n in 0..=0x10ffffu32 {
        if let Some(c) = char::from_u32(n) {
            assert_eq!(is_whitespace(c), c.is_whitespace(), "{:x}", n);
        }
    }
}

#[test]
fn strings_and_characters() {
    assert_eq!(chars_of("añ€😀"), vec!['a', 'ñ', '€', '😀']);
    assert_eq!(string_of(&['a', 'ñ', '€', '😀']), "añ€😀");
    assert_eq!(string_of(&[]), "");
}

#[test]
fn lines_words_and_pieces() {
    for t in texts_over(&['a', ' ', '\n', '\r', '\u{a0}'], 6) {
        let cs = chars_of(&t);
        let lines: Vec<&str> = t.lines().collect();
        assert_eq!(owned(lines_of(&cs)), lines, "{:?}", t);
        let words: Vec<&str> = t.split_whitespace().collect();
        assert_eq!(owned(words_of(&cs)), words, "{:?}", t);
        let pieces: Vec<&str> = t.split(' ').collect();
        assert_eq!(owned(split_text_on(&cs, ' ')), pieces, "{:?}", t);
        assert_eq!(string_of(trim_of(&cs)), t.trim());
        assert_eq!(string_of(trim_start_of(&cs)), t.trim_start());
        assert_eq!(string_of(trim_end_of(&cs)), t.trim_end());
    }
}

#[test]
fn searching() {
    for t in texts_over(&['a', 'b'], 7) {
        let cs = chars_of(&t);
        assert_eq!(rfind_of_char(&cs, 'b'), t.rfind('b'));
        assert_eq!(string_of(strip_end_of(&cs, 'b')), t.trim_end_matches('b'));
        for p in texts_over(&['a', 'b'], 3) {
            let ps = chars_of(&p);
            assert_eq!(find_text(&cs, &ps), t.find(&p));
            assert_eq!(text_contains(&cs, &ps), t.contains(&p));
            assert_eq!(text_starts_with(&cs, &ps), t.starts_with(&p));
            assert_eq!(text_ends_with(&cs, &ps), t.ends_with(&p));
            assert_eq!(text_eq(&cs, &ps), t == p);
            for from in 0..=t.len() {
                assert_eq!(find_text_from(&cs, &ps, from), t[from..].find(&p).map(|i| from + i));
            }
            assert_eq!(find_text_from(&cs, &ps, t.len() + 1), None);
        }
    }
}

#[test]
fn padding() {
    for t in ["", "a", "José", "abcdef"] {
        let mut left = vec!['|'];
        push_padded_left(&mut left, &chars_of(t), 5);
        assert_eq!(string_of(&left), format!("|{:>5}", t));
        let mut right = vec!['|'];
        push_padded_right(&mut right, &chars_of(t), 5);
        assert_eq!(string_of(&right), format!("|{:<5}", t));
    }
}

#[test]
fn joining() {
    let parts = vec![chars_of("a"), chars_of(""), chars_of("bc")];
    assert_eq!(string_of(&join_texts(&parts, &[',', ' '])), "a, , bc");
    assert_eq!(string_of(&join_texts(&Vec::new(), &[','])), "");
    assert_eq!(string_of(&join_texts(&vec![chars_of("x")], &[','])), "x");
}
