use rusty_time::hex::{hex, unhex};
use rusty_time::numbers::{decimal_text, parse_integer, parse_natural, reads_as_real};
use rusty_time::text::{
    chars_of, comes_before, find, spells, split_lines, split_words, string_of, to_lower, trim,
    trim_end,
};

fn natural(s: &str, max: u64) -> Option<u64> {
    parse_natural(&chars_of(s), max)
}

fn integer(s: &str) -> Option<i64> {
    parse_integer(&chars_of(s), -10, 10)
}

#[test]
fn numbers_read_as_the_standard_library_reads_them() {
    for s in ["0", "7", "+7", "007", "18446744073709551615", "18446744073709551616", "", "+", "-1", " 1", "1 ", "1e3", "x"] {
        assert_eq!(natural(s, u64::MAX), s.parse::<u64>().ok(), "{s:?}");
    }
    for s in ["-3", "+3", "3", "--3", "-", "", "11", "-10", "10"] {
        let wanted = s.parse::<i64>().ok().filter(|v| (-10..=10).contains(v));
        assert_eq!(integer(s), wanted, "{s:?}");
    }
    for s in ["1", "-1.5", "+.5", "5.", "1e-3", "1E+9", ".", "", "e5", "inf", "-Infinity", "nan", "NaN", "0x10", "1..2", "1e", " 1"] {
        assert_eq!(reads_as_real(&chars_of(s)), s.parse::<f64>().is_ok(), "{s:?}");
    }
}

#[test]
fn decimals_read_back() {
    for n in [0, 9, 10, 123_456, u64::MAX] {
        assert_eq!(decimal_text(n), n.to_string());
        assert_eq!(natural(&decimal_text(n), u64::MAX), Some(n));
    }
}

#[test]
fn hex_is_two_digits_a_byte() {
    assert_eq!(hex(&[0x00, 0x9f, 0xff]), "009fff");
    assert_eq!(unhex("009FfF"), Some(vec![0x00, 0x9f, 0xff]));
    assert_eq!(unhex(""), Some(vec![]));
    assert_eq!(unhex("0"), None);
    assert_eq!(unhex("0g"), None);
}

#[test]
fn text_is_split_and_trimmed_as_the_standard_library_does() {
    for s in ["", "  ", "a b\tc", "\u{a0}x\u{2003}y\u{3000}", "one\ntwo\n\nthree", "end\n"] {
        let chars = chars_of(s);
        let words: Vec<String> = split_words(&chars).iter().map(|w| string_of(w)).collect();
        let wanted: Vec<String> = s.split_whitespace().map(String::from).collect();
        assert_eq!(words, wanted, "{s:?}");
        let lines: Vec<String> = split_lines(&chars).iter().map(|l| string_of(l)).collect();
        let wanted: Vec<String> = s.lines().map(String::from).collect();
        assert_eq!(lines, wanted, "{s:?}");
        assert_eq!(string_of(trim(&chars)), s.trim());
        assert_eq!(string_of(trim_end(&chars)), s.trim_end());
    }
}

#[test]
fn characters_are_found_and_compared() {
    assert_eq!(find(&chars_of("a:b:c"), ':'), 1);
    assert_eq!(find(&chars_of("abc"), ':'), 3);
    assert!(spells(&chars_of("abc"), "abc"));
    assert!(!spells(&chars_of("abc"), "abd"));
    assert_eq!(string_of(&to_lower(&chars_of("Content-\u{c9}"))), "content-\u{c9}");
    for (a, b) in [("", "a"), ("a", "b"), ("a", "ab"), ("b", "a"), ("x", "x")] {
        assert_eq!(comes_before(&chars_of(a), &chars_of(b)), a < b, "{a} {b}");
    }
}
