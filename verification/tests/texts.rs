use ce_crash::order::sorted;
use ce_crash::text::{
    char_is_blank, first_line_of, push_decimal, push_joined, push_padded_left, push_padded_right,
    push_signed, push_zero_padded, split_lines, trimmed,
};

const SAMPLES: [&str; 18] = [
    "",
    "\n",
    "\r\n",
    "\r",
    "a",
    "a\n",
    "a\nb",
    "a\r\nb\r\n",
    "a\rb",
    "a\r",
    "\n\n",
    "a\n\nb",
    "a\r\r\nb",
    "  a b  ",
    "\u{2003}x\u{3000}",
    "\u{200b}x",
    "é\n日本\r\n",
    " \t\n",
];

#[test]
fn lines_are_those_of_str() {
    for s in SAMPLES {
        assert_eq!(split_lines(s), s.lines().map(|l| l.to_string()).collect::<Vec<String>>());
        assert_eq!(first_line_of(s), s.lines().next().unwrap_or_default());
    }
}

#[test]
fn trimming_is_that_of_str() {
    for s in SAMPLES {
        assert_eq!(trimmed(s), s.trim());
    }
}

#[test]
fn blanks_are_those_of_char() {
    for u in 0..=0x10ffffu32 {
        if let Some(c) = char::from_u32(u) {
            assert_eq!(char_is_blank(c), c.is_whitespace());
        }
    }
}

#[test]
fn numbers() {
    for n in [0u64, 1, 9, 10, 99, 100, 12345, u64::MAX] {
        let mut out = String::from("n=");
        push_decimal(&mut out, n);
        assert_eq!(out, format!("n={}", n));
        let mut padded = String::new();
        push_zero_padded(&mut padded, n, 4);
        assert_eq!(padded, format!("{:04}", n));
    }
    for n in [0i32, -1, 7, i32::MIN, i32::MAX] {
        let mut out = String::new();
        push_signed(&mut out, n);
        assert_eq!(out, format!("{}", n));
    }
}

#[test]
fn padding_counts_characters() {
    for s in ["", "é", "abc", "abcdefgh"] {
        let mut left = String::new();
        push_padded_left(&mut left, s, ' ', 5);
        assert_eq!(left, format!("{:>5}", s));
        let mut right = String::new();
        push_padded_right(&mut right, s, ' ', 5);
        assert_eq!(right, format!("{:<5}", s));
    }
}

#[test]
fn joining() {
    let parts: Vec<String> = vec!["a".into(), "".into(), "c".into()];
    let mut out = String::from(">");
    push_joined(&mut out, &parts, ", ");
    assert_eq!(out, ">a, , c");
    let mut none = String::new();
    push_joined(&mut none, &vec![], ", ");
    assert_eq!(none, "");
}

#[test]
fn sorting_is_that_of_strings() {
    let all: Vec<String> =
        ["b", "", "a", "ab", "Z", "é", "\u{10000}", "\u{ffff}", "a", "日", "B", "_X"]
            .iter()
            .map(|s| s.to_string())
            .collect();
    let mut expected = all.clone();
    expected.sort();
    assert_eq!(sorted(all), expected);
}
