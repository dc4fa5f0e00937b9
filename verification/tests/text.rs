//! Text: the library's own functions next to std's.

use org_core::text::{
    chars_of, contains_text, int_text, le_text, lower_ascii, push_left_aligned, push_nat,
    push_right_aligned, push_spaces, same_text, string_of, trim, white, words_at, WordClass,
};

const SAMPLES: [&str; 12] = [
    "",
    "a",
    "ab",
    "aB",
    "b",
    "é",
    "e\u{301}",
    "日本",
    "日本語",
    "\u{ffff}",
    "\u{10000}",
    " a b ",
];

#[test]
fn white_space_is_std_s() {
    for n in 0..=0x10ffffu32 {
        if let Some(c) = char::from_u32(n) {
            assert_eq!(white(c), c.is_whitespace());
        }
    }
}

#[test]
fn order_and_equality_are_std_s() {
    for a in SAMPLES {
        for b in SAMPLES {
            assert_eq!(le_text(a, b), a <= b);
            assert_eq!(same_text(a, b), a == b);
            assert_eq!(contains_text(a, b), a.contains(b));
        }
    }
}

#[test]
fn trimming_is_std_s() {
    for s in ["", "  ", "a", " a ", "\u{3000}x y\n", "\t\u{a0}\u{2003}z", "x\u{200b}"] {
        assert_eq!(trim(s), s.trim());
    }
}

#[test]
fn words_are_std_s() {
    for s in [
        "",
        "  ",
        "one",
        " two  words\there ",
        "a\u{a0}b\u{3000}c",
        "x-y,z 9",
        "Zoë Ångström/日本語",
    ] {
        let cs = chars_of(s);
        let words: Vec<String> = words_at(&cs, WordClass::NonWhite)
            .into_iter()
            .map(|(i, j)| string_of(&cs, i, j))
            .collect();
        assert_eq!(words, s.split_whitespace().collect::<Vec<_>>());
        let plain: Vec<String> = words_at(&cs, WordClass::Alphanumeric)
            .into_iter()
            .map(|(i, j)| string_of(&cs, i, j))
            .collect();
        let expected: Vec<&str> = s
            .split(|c: char| !c.is_alphanumeric())
            .filter(|w| !w.is_empty())
            .collect();
        assert_eq!(plain, expected);
    }
}

#[test]
fn ascii_letters_fold_as_in_std() {
    for n in 0..0x500u32 {
        if let Some(c) = char::from_u32(n) {
            assert_eq!(lower_ascii(c), c.to_ascii_lowercase());
        }
    }
}

#[test]
fn numbers_read_as_in_std() {
    for n in [0, 7, 10, 99, 100, -1, -10, 1234567890, i64::MAX, i64::MIN] {
        assert_eq!(int_text(n), n.to_string());
    }
    let mut s = String::new();
    push_nat(&mut s, u64::MAX);
    assert_eq!(s, u64::MAX.to_string());
}

#[test]
fn padding_is_std_s() {
    for s in ["", "ab", "日本語", "longer than it"] {
        for w in 0..8 {
            let mut left = String::from("|");
            push_left_aligned(&mut left, s, w);
            assert_eq!(left, format!("|{s:<w$}"));
            let mut right = String::from("|");
            push_right_aligned(&mut right, s, w);
            assert_eq!(right, format!("|{s:>w$}"));
        }
    }
    let mut s = String::from("x");
    push_spaces(&mut s, 3);
    assert_eq!(s, "x   ");
}

#[test]
fn letters_and_digits_are_std_s() {
    for n in 0..=0x10ffffu32 {
        if let Some(c) = char::from_u32(n) {
            let r = WordClass::Alphanumeric.test(c);
            assert_eq!(r, c.is_alphanumeric());
            if n < 128 {
                assert_eq!(r, c.is_ascii_alphanumeric());
            }
            if (0xc0..=0x24f).contains(&n) && n != 0xd7 && n != 0xf7 {
                assert!(r);
            }
        }
    }
}
