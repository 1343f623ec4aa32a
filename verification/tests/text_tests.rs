use pdfgrep::text::{
    contains, parse_i64, parse_u64, parse_usize, remove_all_chars, split, starts_with, trim,
};

const SAMPLES: &[&str] = &[
    "", " ", "0", "42", "+42", "-42", "-", "+", "+-1", "--1", " 1", "1 ", "1a", "a1", "007",
    "9223372036854775807", "9223372036854775808", "-9223372036854775808", "-9223372036854775809",
    "18446744073709551615", "18446744073709551616", "-0", "+0", "99999999999999999999999999",
    "１", "1.5", "1e3", "٣",
];

#[test]
fn parsing_agrees_with_std() {
    for s in SAMPLES {
        assert_eq!(parse_i64(s), s.parse::<i64>().ok(), "i64 {:?}", s);
        assert_eq!(parse_u64(s), s.parse::<u64>().ok(), "u64 {:?}", s);
        assert_eq!(parse_usize(s), s.parse::<usize>().ok(), "usize {:?}", s);
    }
}

#[test]
fn parsing_edge_values() {
    assert_eq!(parse_i64("-9223372036854775808"), Some(i64::MIN));
    assert_eq!(parse_i64("9223372036854775807"), Some(i64::MAX));
    assert_eq!(parse_i64("9223372036854775808"), None);
    assert_eq!(parse_u64("18446744073709551615"), Some(u64::MAX));
    assert_eq!(parse_u64("-1"), None);
    assert_eq!(parse_i64("+7"), Some(7));
    assert_eq!(parse_i64(""), None);
}

#[test]
fn trim_agrees_with_std() {
    let samples = [
        "", "  ", "a", " a ", "\t\na b\r\n", "\u{a0}x\u{3000}", "\u{85}y\u{2028}", "\u{1c}z\u{1f}",
        "\u{200b}w\u{200b}", "\u{180e}v", " \u{2000}\u{200a}u\u{202f}\u{205f}", "\u{b}\u{c}t",
    ];
    for s in samples {
        assert_eq!(trim(s), s.trim(), "{:?}", s);
        assert_eq!(trim(&trim(s)), trim(s));
    }
}

#[test]
fn contains_and_starts_with_agree_with_std() {
    let pairs = [("hello", "ll"), ("hello", ""), ("", ""), ("", "a"), ("abc", "abcd"), ("aab", "ab"), ("héllo", "él"), (".git", "."), ("x.", ".")];
    for (s, p) in pairs {
        assert_eq!(contains(s, p), s.contains(p), "{:?} {:?}", s, p);
        assert_eq!(starts_with(s, p), s.starts_with(p), "{:?} {:?}", s, p);
    }
}

#[test]
fn remove_all_agrees_with_replace() {
    let cases = [("<<a<<<b>>", "<<"), ("aaaa", "aa"), ("aaa", "aa"), ("abc", ""), ("", "x"), ("x/y/z", "/"), ("root 1 0 r", "root")];
    for (s, p) in cases {
        let sv: Vec<char> = s.chars().collect();
        let pv: Vec<char> = p.chars().collect();
        let got: String = remove_all_chars(&sv, &pv).into_iter().collect();
        assert_eq!(got, s.replace(p, ""), "{:?} {:?}", s, p);
    }
}

#[test]
fn split_agrees_with_std() {
    let cases = [("", ' '), (" ", ' '), ("a b", ' '), ("a  b ", ' '), ("/Size 3 /Root 1 0 R", '/'), ("%PDF-1.4", '-'), ("x", '-')];
    for (s, c) in cases {
        let expected: Vec<String> = s.split(c).map(|p| p.to_string()).collect();
        assert_eq!(split(s, c), expected, "{:?} {:?}", s, c);
        assert_eq!(split(s, c).join(&c.to_string()), s);
    }
}

