use log_slicer::text::{
    append_chars, chars_of, contains_chars, leading_space, parse_usize, push_decimal, push_padded,
    replace_chars, split_chars, string_of, trim_chars,
};

fn cs(s: &str) -> Vec<char> {
    s.chars().collect()
}

fn pieces(s: &str, sep: char) -> Vec<String> {
    split_chars(&cs(s), sep).iter().map(|p| p.iter().collect::<String>()).collect()
}

#[test]
fn chars_and_strings_round_trip() {
    let text = "a\u{e9}\u{4e2d}\u{1f600} z";
    let chars = chars_of(text);
    assert_eq!(chars, cs(text));
    assert_eq!(chars.len(), 6);
    assert_eq!(string_of(&chars), text);
    assert_eq!(string_of(&Vec::new()), "");
}

#[test]
fn append_chars_keeps_order() {
    let mut out = cs("ab");
    append_chars(&mut out, &cs("cd"));
    append_chars(&mut out, &cs(""));
    assert_eq!(out, cs("abcd"));
}

#[test]
fn split_matches_std_split() {
    for text in ["", ".", "a", "a.b", "a..b", ".a.", "request.id", "a.b.0.c", "..."] {
        let expected: Vec<String> = text.split('.').map(|p| p.to_string()).collect();
        assert_eq!(pieces(text, '.'), expected, "splitting {:?}", text);
    }
}

#[test]
fn split_of_empty_text_is_one_empty_piece() {
    assert_eq!(pieces("", ','), vec!["".to_string()]);
    assert_eq!(pieces(",", ','), vec!["".to_string(), "".to_string()]);
}

#[test]
fn trim_matches_std_trim() {
    for text in ["", " ", "  a  ", "\t\na b\r\n", "\u{a0}x\u{2003}", "x", " \u{3000} "] {
        let got: String = trim_chars(&cs(text)).iter().collect();
        assert_eq!(got, text.trim(), "trimming {:?}", text);
    }
}

#[test]
fn leading_space_counts_white_space_only() {
    assert_eq!(leading_space(&cs("")), 0);
    assert_eq!(leading_space(&cs("abc")), 0);
    assert_eq!(leading_space(&cs(" \t\n{")), 3);
    assert_eq!(leading_space(&cs("   ")), 3);
}

#[test]
fn contains_matches_std_contains() {
    let cases = [
        ("", ""),
        ("abc", ""),
        ("", "a"),
        ("error: boom", "error"),
        ("error: boom", "boom"),
        ("error: boom", "oops"),
        ("aaab", "aab"),
        ("abc", "abcd"),
        ("Error", "error"),
        ("na\u{ef}ve", "\u{ef}v"),
    ];
    for (hay, needle) in cases {
        assert_eq!(
            contains_chars(&cs(hay), &cs(needle)),
            hay.contains(needle),
            "{:?} in {:?}",
            needle,
            hay
        );
    }
}

#[test]
fn replace_turns_every_dot() {
    let got: String = replace_chars(&cs("a.b..c"), '.', '_').iter().collect();
    assert_eq!(got, "a_b__c");
    let same: String = replace_chars(&cs("abc"), '.', '_').iter().collect();
    assert_eq!(same, "abc");
}

#[test]
fn parse_usize_matches_std_parse() {
    let cases = [
        "0", "7", "007", "+0", "+12", "42", "", "+", "-", "-1", "1a", "a1", " 1", "1 ", "1_000",
        "18446744073709551615", "18446744073709551616", "99999999999999999999999", "++1",
        "\u{0661}",
    ];
    for text in cases {
        assert_eq!(parse_usize(&cs(text)), text.parse::<usize>().ok(), "parsing {:?}", text);
    }
}

#[test]
fn parse_usize_exact_values() {
    assert_eq!(parse_usize(&cs("0")), Some(0));
    assert_eq!(parse_usize(&cs("+15")), Some(15));
    assert_eq!(parse_usize(&cs("0010")), Some(10));
    assert_eq!(parse_usize(&cs("")), None);
    assert_eq!(parse_usize(&cs("1.5")), None);
}

#[test]
fn decimal_matches_display() {
    for n in [0usize, 1, 9, 10, 11, 99, 100, 12345, 1_000_000, usize::MAX] {
        let mut out = cs("n=");
        push_decimal(&mut out, n);
        let got: String = out.iter().collect();
        assert_eq!(got, format!("n={}", n));
    }
}

#[test]
fn padding_right_aligns_in_the_column() {
    for (text, width) in [("", 0usize), ("7", 6), ("123456", 6), ("1234567", 6), ("ab", 3)] {
        let mut out = cs("[");
        push_padded(&mut out, &cs(text), width);
        let got: String = out.iter().collect();
        assert_eq!(got, format!("[{:>width$}", text, width = width));
    }
}
